//! Motion of the live interface: springs that drive properties, and the animations that start by
//! themselves where a watched property of an animated node changes.
use vstd::prelude::*;

use crate::animation::{
    carried, default_animation, done, node_animation, node_is_presented, number_of, plain_animation,
    presented, sampler, samples, scalar_at, shown, Animation, EntryModel, ImplicitEntry, Sampler, ONE,
};
use crate::float::{
    abs32, add32, difference, less_single, lt32, magnitude_of, steady, sub32, sum, unit, FloatOp, Unit,
};
use crate::id_set::{IdSet, PropTable};
use crate::ir::Tree;
use crate::layout::{Frame, Plan};
use crate::node::{Node, NodeId, NodeModel};
use crate::runtime::{
    engages, implicit_models, lemma_values_sound, relaid, set_prop, sound, spring_models, with_values,
    Runtime, RuntimeModel, Spring, SpringEntry, SpringModel, SpringState,
};
use crate::text::{copy, same};
use crate::value::{Value, ValueModel};
use crate::walk::{finite, lemma_walk_inside, walk, walk_order};

verus! {

/// How much a number must change to be seen to: the spacing of singles at one.
pub const LEAST_CHANGE: u32 = 0x3400_0000;

/// The properties that are watched for changes.
pub open spec fn watched() -> Seq<Seq<char>> {
    seq!["width"@, "height"@, "opacity"@, "x"@, "y"@, "corner_radius"@]
}

fn watched_prop(i: usize) -> (r: &'static str)
    requires
        i < 6,
    ensures
        r@ == watched()[i as int],
{
    if i == 0 {
        "width"
    } else if i == 1 {
        "height"
    } else if i == 2 {
        "opacity"
    } else if i == 3 {
        "x"
    } else if i == 4 {
        "y"
    } else {
        "corner_radius"
    }
}

/// How near to its target a spring counts as settled there, half a pixel.
pub const SETTLE_WITHIN: u32 = 0x3F00_0000;

/// The stepper takes every spring and time and always answers alike.
pub open spec fn steps<G: Fn(Spring, SpringState, u32, u32) -> (SpringState, bool)>(g: G) -> bool {
    &&& forall|p: Spring, s: SpringState, dt: u32, near: u32| #[trigger] call_requires(g, (p, s, dt, near))
    &&& forall|p: Spring, s: SpringState, dt: u32, near: u32, x: (SpringState, bool), y: (SpringState, bool)| #[trigger]
        call_ensures(g, (p, s, dt, near), x) && #[trigger] call_ensures(g, (p, s, dt, near), y) ==> x == y
}

/// A stepper as a mathematical function: where a spring stands after some seconds, and whether
/// it has settled within some distance of its target.
pub type Stepper = spec_fn(Spring, SpringState, u32, u32) -> (SpringState, bool);

/// The function that a stepper computes.
pub open spec fn stepper<G: Fn(Spring, SpringState, u32, u32) -> (SpringState, bool)>(g: G) -> Stepper {
    |p: Spring, s: SpringState, dt: u32, near: u32|
        choose|x: (SpringState, bool)| call_ensures(g, (p, s, dt, near), x)
}

/// The numbers of the first `k` watched properties of a node, over those already known.
pub open spec fn node_numbers(
    fl: Unit,
    props: Map<(NodeId, Seq<char>), u32>,
    id: NodeId,
    n: NodeModel,
    k: int,
) -> Map<(NodeId, Seq<char>), u32>
    decreases k,
{
    if k <= 0 {
        props
    } else {
        let p = watched()[k - 1];
        let rest = node_numbers(fl, props, id, n, k - 1);
        match scalar_at(fl, n, p) {
            Some(v) => rest.insert((id, p), v),
            None => rest,
        }
    }
}

/// The numbers of the watched properties of the first `k` nodes of an order, over those already
/// known.
pub open spec fn numbers(
    fl: Unit,
    props: Map<(NodeId, Seq<char>), u32>,
    t: Tree,
    order: Seq<NodeId>,
    k: int,
) -> Map<(NodeId, Seq<char>), u32>
    decreases k,
{
    if k <= 0 {
        props
    } else {
        node_numbers(fl, numbers(fl, props, t, order, k - 1), order[k - 1], t.nodes[order[k - 1]], 6)
    }
}

/// The nodes among the first `k` of an order that are presented.
pub open spec fn presented_among(fl: Unit, t: Tree, order: Seq<NodeId>, k: int) -> Set<NodeId>
    decreases k,
{
    if k <= 0 {
        Set::empty()
    } else if presented(fl, t.nodes[order[k - 1]]) {
        presented_among(fl, t, order, k - 1).insert(order[k - 1])
    } else {
        presented_among(fl, t, order, k - 1)
    }
}

/// The interface with everything that is there taken as seen.
pub open spec fn seeded(fl: Unit, m: RuntimeModel) -> RuntimeModel {
    let order = walk_order(m.doc.tree);
    let n = order.len() as int;
    RuntimeModel {
        props: numbers(fl, Map::empty(), m.doc.tree, order, n),
        present: order.to_set(),
        presented: presented_among(fl, m.doc.tree, order, n),
        ..m
    }
}

/// The animation of a property of a node that is going on, from place `i` on.
pub open spec fn in_flight(s: Seq<EntryModel>, id: NodeId, prop: Seq<char>, i: int) -> Option<EntryModel>
    decreases s.len() - i,
{
    if i < 0 || i >= s.len() {
        None
    } else if s[i].id == id && s[i].prop == prop {
        Some(s[i])
    } else {
        in_flight(s, id, prop, i + 1)
    }
}

/// The animation that starts where a watched property of a node is not the number last seen: from
/// where it stands to the number it has now.
pub open spec fn change_of(fl: Unit, s: Sampler, m: RuntimeModel, id: NodeId, anim: Animation, prop: Seq<char>) -> Option<
    EntryModel,
> {
    match scalar_at(fl, m.doc.tree.nodes[id], prop) {
        Some(now) => if m.props.dom().contains((id, prop)) && lt32(
            LEAST_CHANGE,
            abs32(sub32(fl, m.props[(id, prop)], now)),
        ) {
            let from = match in_flight(m.implicit, id, prop, 0) {
                Some(e) => shown(fl, s, e),
                None => m.props[(id, prop)],
            };
            Some(EntryModel { id, prop, from, to: now, anim, elapsed: 0 })
        } else {
            None
        },
        None => None,
    }
}

/// The animations that start for the first `k` watched properties of a node.
pub open spec fn changes_of(fl: Unit, s: Sampler, m: RuntimeModel, id: NodeId, anim: Animation, k: int) -> Seq<EntryModel>
    decreases k,
{
    if k <= 0 {
        Seq::empty()
    } else {
        let rest = changes_of(fl, s, m, id, anim, k - 1);
        match change_of(fl, s, m, id, anim, watched()[k - 1]) {
            Some(e) => rest.push(e),
            None => rest,
        }
    }
}

/// The animation that starts where a node came to be presented or ceased to be.
pub open spec fn transition_of(fl: Unit, m: RuntimeModel, id: NodeId) -> Option<EntryModel> {
    let n = m.doc.tree.nodes[id];
    let anim = match carried(fl, n) {
        Some(a) => a,
        None => plain_animation(),
    };
    if presented(fl, n) && !(m.presented.contains(id) && m.present.contains(id)) {
        Some(EntryModel { id, prop: "opacity"@, from: 0, to: ONE, anim, elapsed: 0 })
    } else if !presented(fl, n) && m.presented.contains(id) {
        Some(EntryModel { id, prop: "opacity"@, from: ONE, to: 0, anim, elapsed: 0 })
    } else {
        None
    }
}

/// The animations that start for a node.
pub open spec fn started_by(fl: Unit, s: Sampler, m: RuntimeModel, id: NodeId) -> Seq<EntryModel> {
    let changes = match carried(fl, m.doc.tree.nodes[id]) {
        Some(anim) => changes_of(fl, s, m, id, anim, 6),
        None => Seq::empty(),
    };
    match transition_of(fl, m, id) {
        Some(e) => changes.push(e),
        None => changes,
    }
}

/// The animations that start for the first `k` nodes of an order.
pub open spec fn started(fl: Unit, s: Sampler, m: RuntimeModel, order: Seq<NodeId>, k: int) -> Seq<EntryModel>
    decreases k,
{
    if k <= 0 {
        Seq::empty()
    } else {
        started(fl, s, m, order, k - 1) + started_by(fl, s, m, order[k - 1])
    }
}

/// The animations without those of a property of a node.
pub open spec fn without(s: Seq<EntryModel>, id: NodeId, prop: Seq<char>) -> Seq<EntryModel> {
    s.filter(|e: EntryModel| !(e.id == id && e.prop == prop))
}

/// The interface after the first `k` of some animations were begun: each takes the place of what
/// was going on with its property, and its target counts as seen.
pub open spec fn begun(m: RuntimeModel, es: Seq<EntryModel>, k: int) -> RuntimeModel
    decreases k,
{
    if k <= 0 {
        m
    } else {
        let b = begun(m, es, k - 1);
        let e = es[k - 1];
        RuntimeModel {
            props: b.props.insert((e.id, e.prop), e.to),
            implicit: without(b.implicit, e.id, e.prop).push(e),
            ..b
        }
    }
}

/// The interface with the numbers that its watched properties have now taken as seen.
pub open spec fn noticed(fl: Unit, m: RuntimeModel) -> RuntimeModel {
    let order = walk_order(m.doc.tree);
    RuntimeModel { props: numbers(fl, m.props, m.doc.tree, order, order.len() as int), ..m }
}

/// The interface after a look for changes: what started is begun, and what is there counts as seen.
pub open spec fn detected(fl: Unit, s: Sampler, m: RuntimeModel) -> RuntimeModel {
    let order = walk_order(m.doc.tree);
    let n = order.len() as int;
    let es = started(fl, s, m, order, n);
    RuntimeModel {
        present: order.to_set(),
        presented: presented_among(fl, m.doc.tree, order, n),
        ..begun(noticed(fl, m), es, es.len() as int)
    }
}

/// The values that the first `k` springs give their properties after `dt` seconds.
pub open spec fn spring_values(g: Stepper, s: Seq<SpringModel>, dt: u32, k: int) -> Seq<(NodeId, Seq<char>, ValueModel)>
    decreases k,
{
    if k <= 0 {
        Seq::empty()
    } else {
        let e = s[k - 1];
        spring_values(g, s, dt, k - 1).push((e.id, e.prop, ValueModel::Px(g(e.spring, e.state, dt, SETTLE_WITHIN).0.value)))
    }
}

/// The first `k` springs after `dt` seconds, without those that have settled.
pub open spec fn springs_left(g: Stepper, s: Seq<SpringModel>, dt: u32, k: int) -> Seq<SpringModel>
    decreases k,
{
    if k <= 0 {
        Seq::empty()
    } else {
        let e = s[k - 1];
        let rest = springs_left(g, s, dt, k - 1);
        let (state, settled) = g(e.spring, e.state, dt, SETTLE_WITHIN);
        if settled {
            rest
        } else {
            rest.push(SpringModel { state, ..e })
        }
    }
}

/// The interface after its springs went on for `dt` seconds.
pub open spec fn sprung(g: Stepper, m: RuntimeModel, dt: u32) -> RuntimeModel {
    let n = m.springs.len() as int;
    let ups = spring_values(g, m.springs, dt, n);
    RuntimeModel {
        springs: springs_left(g, m.springs, dt, n),
        doc: with_values(m.doc, ups, n),
        ..m
    }
}

/// An animation that went on for `dt` seconds.
pub open spec fn aged(fl: Unit, e: EntryModel, dt: u32) -> EntryModel {
    EntryModel { elapsed: add32(fl, e.elapsed, dt), ..e }
}

/// The values that the first `k` animations give their properties after `dt` seconds.
pub open spec fn moved_values(fl: Unit, s: Sampler, es: Seq<EntryModel>, dt: u32, k: int) -> Seq<
    (NodeId, Seq<char>, ValueModel),
>
    decreases k,
{
    if k <= 0 {
        Seq::empty()
    } else {
        let e = aged(fl, es[k - 1], dt);
        moved_values(fl, s, es, dt, k - 1).push((e.id, e.prop, ValueModel::Px(shown(fl, s, e))))
    }
}

/// The first `k` animations after `dt` seconds, without those that have taken their time.
pub open spec fn moving_left(fl: Unit, es: Seq<EntryModel>, dt: u32, k: int) -> Seq<EntryModel>
    decreases k,
{
    if k <= 0 {
        Seq::empty()
    } else {
        let e = aged(fl, es[k - 1], dt);
        let rest = moving_left(fl, es, dt, k - 1);
        if done(e) {
            rest
        } else {
            rest.push(e)
        }
    }
}

/// The numbers last seen, with those that the first `k` animations give.
pub open spec fn moved_numbers(
    fl: Unit,
    s: Sampler,
    es: Seq<EntryModel>,
    dt: u32,
    props: Map<(NodeId, Seq<char>), u32>,
    k: int,
) -> Map<(NodeId, Seq<char>), u32>
    decreases k,
{
    if k <= 0 {
        props
    } else {
        let e = aged(fl, es[k - 1], dt);
        moved_numbers(fl, s, es, dt, props, k - 1).insert((e.id, e.prop), shown(fl, s, e))
    }
}

/// The interface after its animations went on for `dt` seconds.
pub open spec fn advanced(fl: Unit, s: Sampler, m: RuntimeModel, dt: u32) -> RuntimeModel {
    let n = m.implicit.len() as int;
    RuntimeModel {
        implicit: moving_left(fl, m.implicit, dt, n),
        props: moved_numbers(fl, s, m.implicit, dt, m.props, n),
        doc: with_values(m.doc, moved_values(fl, s, m.implicit, dt, n), n),
        ..m
    }
}

/// The springs without those of a property of a node.
pub open spec fn springs_without(s: Seq<SpringModel>, id: NodeId, prop: Seq<char>) -> Seq<SpringModel> {
    s.filter(|e: SpringModel| !(e.id == id && e.prop == prop))
}

fn ask_step<G: Fn(Spring, SpringState, u32, u32) -> (SpringState, bool)>(g: &G, e: &SpringEntry, dt: u32) -> (r: (
    SpringState,
    bool,
))
    requires
        steps(*g),
    ensures
        r == stepper(*g)(e.spring, e.state, dt, SETTLE_WITHIN),
{
    g(e.spring, e.state, dt, SETTLE_WITHIN)
}

fn find_in_flight(v: &Vec<ImplicitEntry>, id: NodeId, prop: &str) -> (r: Option<usize>)
    ensures
        match r {
            Some(i) => i < v@.len() && in_flight(implicit_models(v@), id, prop@, 0) == Some(v@[i as int]@),
            None => in_flight(implicit_models(v@), id, prop@, 0) is None,
        },
{
    let ghost s = implicit_models(v@);
    let mut i: usize = 0;
    while i < v.len()
        invariant
            s == implicit_models(v@),
            i <= v@.len(),
            in_flight(s, id, prop@, 0) == in_flight(s, id, prop@, i as int),
        decreases v.len() - i,
    {
        assert(s[i as int] == v@[i as int]@);
        if v[i].id == id && same(v[i].prop.as_str(), prop) {
            return Some(i);
        }
        i += 1;
    }
    None
}

proof fn lemma_filter_step<A>(s: Seq<A>, f: spec_fn(A) -> bool, i: int)
    requires
        0 <= i < s.len(),
    ensures
        s.take(i + 1).filter(f) == if f(s[i]) {
            s.take(i).filter(f).push(s[i])
        } else {
            s.take(i).filter(f)
        },
{
    reveal(Seq::filter);
    assert(s.take(i + 1).drop_last() =~= s.take(i));
    assert(s.take(i + 1).last() == s[i]);
}

fn keep_others(v: &Vec<ImplicitEntry>, id: NodeId, prop: &str) -> (r: Vec<ImplicitEntry>)
    ensures
        implicit_models(r@) == without(implicit_models(v@), id, prop@),
{
    let ghost s = implicit_models(v@);
    let ghost f = |e: EntryModel| !(e.id == id && e.prop == prop@);
    let mut out: Vec<ImplicitEntry> = Vec::new();
    let mut i: usize = 0;
    proof {
        reveal(Seq::filter);
        assert(s.take(0) =~= Seq::empty());
        assert(implicit_models(out@) =~= s.take(0).filter(f));
    }
    while i < v.len()
        invariant
            s == implicit_models(v@),
            f == (|e: EntryModel| !(e.id == id && e.prop == prop@)),
            i <= v@.len(),
            implicit_models(out@) == s.take(i as int).filter(f),
        decreases v.len() - i,
    {
        assert(s[i as int] == v@[i as int]@);
        proof {
            lemma_filter_step(s, f, i as int);
        }
        let e = &v[i];
        if !(e.id == id && same(e.prop.as_str(), prop)) {
            let ghost was = out@;
            out.push(
                ImplicitEntry {
                    id: e.id,
                    prop: copy(e.prop.as_str()),
                    from: e.from,
                    to: e.to,
                    anim: e.anim,
                    elapsed: e.elapsed,
                },
            );
            assert(implicit_models(out@) =~= implicit_models(was).push(e@));
        }
        i += 1;
    }
    assert(s.take(i as int) =~= s);
    out
}

impl Runtime {
    /// Starts a spring that drives a property of a node from one number to another, in place of
    /// one that does.
    pub fn animate(&mut self, id: NodeId, prop: &str, from: u32, target: u32, spring: Spring)
        ensures
            final(self)@ == (RuntimeModel {
                springs: springs_without(old(self)@.springs, id, prop@).push(
                    SpringModel { id, prop: prop@, spring, state: SpringState { value: from, velocity: 0, target } },
                ),
                ..old(self)@
            }),
    {
        let ghost s = spring_models(self.springs@);
        let ghost f = |e: SpringModel| !(e.id == id && e.prop == prop@);
        let mut out: Vec<SpringEntry> = Vec::new();
        let mut i: usize = 0;
        proof {
            reveal(Seq::filter);
            assert(s.take(0) =~= Seq::empty());
            assert(spring_models(out@) =~= s.take(0).filter(f));
        }
        while i < self.springs.len()
            invariant
                *self == *old(self),
                s == spring_models(self.springs@),
                f == (|e: SpringModel| !(e.id == id && e.prop == prop@)),
                i <= self.springs@.len(),
                spring_models(out@) == s.take(i as int).filter(f),
            decreases self.springs.len() - i,
        {
            assert(s[i as int] == self.springs@[i as int]@);
            proof {
                lemma_filter_step(s, f, i as int);
            }
            let e = &self.springs[i];
            if !(e.id == id && same(e.prop.as_str(), prop)) {
                let ghost was = out@;
                out.push(SpringEntry { id: e.id, prop: copy(e.prop.as_str()), spring: e.spring, state: e.state });
                assert(spring_models(out@) =~= spring_models(was).push(e@));
            }
            i += 1;
        }
        assert(s.take(i as int) =~= s);
        let ghost was = out@;
        out.push(SpringEntry { id, prop: copy(prop), spring, state: SpringState { value: from, velocity: 0, target } });
        assert(spring_models(out@) =~= spring_models(was).push(
            SpringModel { id, prop: prop@, spring, state: SpringState { value: from, velocity: 0, target } },
        ));
        self.springs = out;
    }

    /// `true` exactly when no spring is going on.
    pub fn animations_settled(&self) -> (r: bool)
        ensures
            r == (self@.springs.len() == 0),
    {
        self.springs.len() == 0
    }

    /// `true` exactly when no animation is going on by itself.
    pub fn implicit_settled(&self) -> (r: bool)
        ensures
            r == (self@.implicit.len() == 0),
    {
        self.implicit.len() == 0
    }

    fn apply_values(&mut self, ups: &Vec<(NodeId, String, u32)>)
        requires
            sound(old(self)@),
        ensures
            final(self)@ == (RuntimeModel {
                doc: with_values(old(self)@.doc, px_models(ups@), ups@.len() as int),
                ..old(self)@
            }),
            sound(final(self)@),
    {
        let ghost d = self.doc@;
        let ghost all = px_models(ups@);
        proof {
            lemma_values_sound(self@, all, ups@.len() as int);
        }
        let n: usize = ups.len();
        let mut j: usize = 0;
        while j < n
            invariant
                j <= n,
                n == ups@.len(),
                all == px_models(ups@),
                self@ == (RuntimeModel { doc: with_values(d, all, j as int), ..old(self)@ }),
            decreases n - j,
        {
            let u = &ups[j];
            assert(all[j as int] == (u.0, u.1@, ValueModel::Px(u.2)));
            set_prop(&mut self.doc, u.0, copy(u.1.as_str()), Value::Px(u.2));
            j += 1;
        }
    }

    /// Lets the springs go on for `dt` seconds: each sets its property, and those that have
    /// settled end. `true` exactly when some go on.
    fn step_springs<G: Fn(Spring, SpringState, u32, u32) -> (SpringState, bool)>(&mut self, dt: u32, g: &G) -> (r: bool)
        requires
            sound(old(self)@),
            steps(*g),
        ensures
            final(self)@ == sprung(stepper(*g), old(self)@, dt),
            r == (final(self)@.springs.len() > 0),
            sound(final(self)@),
    {
        let ghost s = spring_models(self.springs@);
        let ghost st = stepper(*g);
        let mut left: Vec<SpringEntry> = Vec::new();
        let mut ups: Vec<(NodeId, String, u32)> = Vec::new();
        let n: usize = self.springs.len();
        let mut i: usize = 0;
        assert(spring_models(left@) =~= Seq::empty());
        assert(px_models(ups@) =~= Seq::empty());
        while i < n
            invariant
                *self == *old(self),
                steps(*g),
                st == stepper(*g),
                s == spring_models(self.springs@),
                n == self.springs@.len(),
                i <= n,
                spring_models(left@) == springs_left(st, s, dt, i as int),
                px_models(ups@) == spring_values(st, s, dt, i as int),
                ups@.len() == i,
            decreases n - i,
        {
            let e = &self.springs[i];
            assert(s[i as int] == e@);
            let (state, settled) = ask_step(g, e, dt);
            let ghost was = ups@;
            ups.push((e.id, copy(e.prop.as_str()), state.value));
            assert(px_models(ups@) =~= px_models(was).push((e.id, e.prop@, ValueModel::Px(state.value))));
            if !settled {
                let ghost was = left@;
                left.push(SpringEntry { id: e.id, prop: copy(e.prop.as_str()), spring: e.spring, state });
                assert(spring_models(left@) =~= spring_models(was).push(SpringModel { state, ..e@ }));
            }
            i += 1;
        }
        self.springs = left;
        self.apply_values(&ups);
        self.springs.len() > 0
    }

    /// Lets the springs go on for `dt` seconds and lays the document out. `true` exactly when
    /// some go on. Without springs nothing happens.
    pub fn tick_animations<
        F: Fn(&FloatOp) -> Option<u64>,
        E: Fn(&Plan) -> Option<Vec<Frame>>,
        G: Fn(Spring, SpringState, u32, u32) -> (SpringState, bool),
    >(&mut self, dt: u32, fl: &F, engine: &E, g: &G) -> (r: bool)
        requires
            sound(old(self)@),
            steady(*fl),
            engages(*engine),
            steps(*g),
        ensures
            if old(self)@.springs.len() == 0 {
                final(self)@ == old(self)@
            } else {
                relaid(*engine, unit(*fl), sprung(stepper(*g), old(self)@, dt), final(self)@)
            },
            r == (final(self)@.springs.len() > 0),
            sound(final(self)@),
    {
        if self.springs.len() == 0 {
            return false;
        }
        let running = self.step_springs(dt, g);
        self.relayout(fl, engine);
        running
    }

    /// Takes everything that is there as seen, so that only what changes from here on moves.
    pub(crate) fn seed_animation_snapshots<F: Fn(&FloatOp) -> Option<u64>>(&mut self, fl: &F)
        requires
            sound(old(self)@),
            steady(*fl),
        ensures
            final(self)@ == seeded(unit(*fl), old(self)@),
            sound(final(self)@),
    {
        let order = walk(&self.doc);
        let ghost t = self.doc@.tree;
        let mut snap = PropTable::new();
        let mut present = IdSet::new();
        let mut shown_now = IdSet::new();
        let mut i: usize = 0;
        assert(present@ =~= order@.take(0).to_set());
        while i < order.len()
            invariant
                *self == *old(self),
                t == self.doc@.tree,
                finite(t),
                steady(*fl),
                order@ == walk_order(t),
                i <= order@.len(),
                snap@ == numbers(unit(*fl), Map::empty(), t, order@, i as int),
                present@ == order@.take(i as int).to_set(),
                shown_now@ == presented_among(unit(*fl), t, order@, i as int),
            decreases order.len() - i,
        {
            let id = order[i];
            proof {
                lemma_walk_inside(t, i as int);
                lemma_take_set(order@, i as int);
            }
            match self.doc.get(id) {
                Some(node) => {
                    present.insert(id);
                    if node_is_presented(node, fl) {
                        shown_now.insert(id);
                    }
                    note_numbers(id, node, &mut snap, fl);
                },
                None => {},
            }
            i += 1;
        }
        assert(order@.take(i as int) =~= order@);
        self.prop_snapshot = snap;
        self.presence_snapshot = present;
        self.presented_snapshot = shown_now;
    }

    fn change_at<F: Fn(&FloatOp) -> Option<u64>, S: Fn(Animation, u32) -> u32>(
        &self,
        id: NodeId,
        node: &Node,
        anim: Animation,
        prop: &str,
        fl: &F,
        s: &S,
    ) -> (r: Option<ImplicitEntry>)
        requires
            steady(*fl),
            samples(*s),
            node@ == self@.doc.tree.nodes[id],
        ensures
            match r {
                Some(e) => change_of(unit(*fl), sampler(*s), self@, id, anim, prop@) == Some(e@),
                None => change_of(unit(*fl), sampler(*s), self@, id, anim, prop@) is None,
            },
    {
        let now: u32 = match number_of(node, prop, fl) {
            Some(v) => v,
            None => {
                return None;
            },
        };
        let seen: u32 = match self.prop_snapshot.get(id, prop) {
            Some(v) => v,
            None => {
                return None;
            },
        };
        if !less_single(LEAST_CHANGE, magnitude_of(difference(fl, seen, now))) {
            return None;
        }
        let from: u32 = match find_in_flight(&self.implicit, id, prop) {
            Some(i) => self.implicit[i].value(fl, s),
            None => seen,
        };
        Some(ImplicitEntry { id, prop: copy(prop), from, to: now, anim, elapsed: 0 })
    }

    fn collect_started<F: Fn(&FloatOp) -> Option<u64>, S: Fn(Animation, u32) -> u32>(
        &self,
        id: NodeId,
        node: &Node,
        out: &mut Vec<ImplicitEntry>,
        fl: &F,
        s: &S,
    )
        requires
            steady(*fl),
            samples(*s),
            node@ == self@.doc.tree.nodes[id],
        ensures
            implicit_models(final(out)@) == implicit_models(old(out)@) + started_by(
                unit(*fl),
                sampler(*s),
                self@,
                id,
            ),
    {
        let ghost start = implicit_models(out@);
        let ghost u = unit(*fl);
        let ghost sm = sampler(*s);
        let anim = node_animation(node, fl);
        assert(implicit_models(out@) =~= start + Seq::empty());
        match anim {
            Some(anim) => {
                let mut i: usize = 0;
                while i < 6
                    invariant
                        steady(*fl),
                        samples(*s),
                        u == unit(*fl),
                        sm == sampler(*s),
                        node@ == self@.doc.tree.nodes[id],
                        i <= 6,
                        implicit_models(out@) == start + changes_of(u, sm, self@, id, anim, i as int),
                    decreases 6 - i,
                {
                    let ghost was = out@;
                    match self.change_at(id, node, anim, watched_prop(i), fl, s) {
                        Some(e) => {
                            let ghost m = e@;
                            out.push(e);
                            assert(implicit_models(out@) =~= implicit_models(was).push(m));
                            assert(implicit_models(out@) =~= start + changes_of(u, sm, self@, id, anim, i + 1));
                        },
                        None => {},
                    }
                    i += 1;
                }
            },
            None => {},
        }
        let presented_now = node_is_presented(node, fl);
        let was_present = self.presence_snapshot.contains(&id);
        let was_presented = self.presented_snapshot.contains(&id);
        let trans = match anim {
            Some(a) => a,
            None => default_animation(),
        };
        let ghost was = out@;
        if presented_now && (!was_presented || !was_present) {
            out.push(ImplicitEntry { id, prop: copy("opacity"), from: 0, to: ONE, anim: trans, elapsed: 0 });
            assert(implicit_models(out@) =~= implicit_models(was).push(transition_of(u, self@, id)->0));
        } else if !presented_now && was_presented {
            out.push(ImplicitEntry { id, prop: copy("opacity"), from: ONE, to: 0, anim: trans, elapsed: 0 });
            assert(implicit_models(out@) =~= implicit_models(was).push(transition_of(u, self@, id)->0));
        }
        assert(implicit_models(out@) =~= start + started_by(u, sm, self@, id));
    }

    /// Looks for watched properties that changed on animated nodes, and for nodes that came to be
    /// presented or ceased to be, and begins their animations. What is there then counts as seen.
    fn detect_implicit_animations<F: Fn(&FloatOp) -> Option<u64>, S: Fn(Animation, u32) -> u32>(&mut self, fl: &F, s: &S)
        requires
            sound(old(self)@),
            steady(*fl),
            samples(*s),
        ensures
            final(self)@ == detected(unit(*fl), sampler(*s), old(self)@),
            sound(final(self)@),
    {
        let ghost m = self@;
        let ghost u = unit(*fl);
        let ghost sm = sampler(*s);
        let order = walk(&self.doc);
        let ghost t = self.doc@.tree;
        let mut fresh: Vec<ImplicitEntry> = Vec::new();
        let mut present = IdSet::new();
        let mut shown_now = IdSet::new();
        let mut i: usize = 0;
        assert(present@ =~= order@.take(0).to_set());
        assert(implicit_models(fresh@) =~= Seq::empty());
        while i < order.len()
            invariant
                *self == *old(self),
                m == self@,
                t == self.doc@.tree,
                finite(t),
                steady(*fl),
                samples(*s),
                u == unit(*fl),
                sm == sampler(*s),
                order@ == walk_order(t),
                i <= order@.len(),
                implicit_models(fresh@) == started(u, sm, m, order@, i as int),
                present@ == order@.take(i as int).to_set(),
                shown_now@ == presented_among(u, t, order@, i as int),
            decreases order.len() - i,
        {
            let id = order[i];
            proof {
                lemma_walk_inside(t, i as int);
                lemma_take_set(order@, i as int);
            }
            match self.doc.get(id) {
                Some(node) => {
                    present.insert(id);
                    if node_is_presented(node, fl) {
                        shown_now.insert(id);
                    }
                    self.collect_started(id, node, &mut fresh, fl, s);
                },
                None => {},
            }
            i += 1;
        }
        assert(order@.take(i as int) =~= order@);
        let mut k: usize = 0;
        while k < order.len()
            invariant
                t == m.doc.tree,
                self@ == (RuntimeModel { props: self.prop_snapshot@, ..m }),
                finite(t),
                steady(*fl),
                u == unit(*fl),
                order@ == walk_order(t),
                k <= order@.len(),
                self.prop_snapshot@ == numbers(u, m.props, t, order@, k as int),
            decreases order.len() - k,
        {
            let id = order[k];
            proof {
                lemma_walk_inside(t, k as int);
            }
            match self.doc.get(id) {
                Some(node) => {
                    note_numbers(id, node, &mut self.prop_snapshot, fl);
                },
                None => {},
            }
            k += 1;
        }
        assert(self@ == noticed(u, m));
        let ghost es = implicit_models(fresh@);
        let n: usize = fresh.len();
        let mut j: usize = 0;
        while j < n
            invariant
                j <= n,
                n == fresh@.len(),
                es == implicit_models(fresh@),
                self@ == begun(noticed(u, m), es, j as int),
            decreases n - j,
        {
            let e = &fresh[j];
            assert(es[j as int] == e@);
            let ghost b = self@;
            self.prop_snapshot.insert(e.id, e.prop.as_str(), e.to);
            let mut kept = keep_others(&self.implicit, e.id, e.prop.as_str());
            let ghost was = kept@;
            kept.push(
                ImplicitEntry {
                    id: e.id,
                    prop: copy(e.prop.as_str()),
                    from: e.from,
                    to: e.to,
                    anim: e.anim,
                    elapsed: e.elapsed,
                },
            );
            assert(implicit_models(kept@) =~= implicit_models(was).push(e@));
            self.implicit = kept;
            j += 1;
        }
        self.presence_snapshot = present;
        self.presented_snapshot = shown_now;
        proof {
            lemma_begun_keeps(noticed(u, m), es, n as int);
        }
    }

    /// Lets the animations go on for `dt` seconds: each sets its property to where it stands, and
    /// those that have taken their time end. `true` exactly when some go on.
    fn advance_implicit<F: Fn(&FloatOp) -> Option<u64>, S: Fn(Animation, u32) -> u32>(&mut self, dt: u32, fl: &F, s: &S) -> (r: bool)
        requires
            sound(old(self)@),
            steady(*fl),
            samples(*s),
        ensures
            final(self)@ == advanced(unit(*fl), sampler(*s), old(self)@, dt),
            r == (final(self)@.implicit.len() > 0),
            sound(final(self)@),
    {
        let ghost es = implicit_models(self.implicit@);
        let ghost u = unit(*fl);
        let ghost sm = sampler(*s);
        let ghost props = self.prop_snapshot@;
        let mut left: Vec<ImplicitEntry> = Vec::new();
        let mut ups: Vec<(NodeId, String, u32)> = Vec::new();
        let n: usize = self.implicit.len();
        let mut i: usize = 0;
        assert(implicit_models(left@) =~= Seq::empty());
        assert(px_models(ups@) =~= Seq::empty());
        while i < n
            invariant
                self@ == (RuntimeModel {
                    props: moved_numbers(u, sm, es, dt, props, i as int),
                    ..old(self)@
                }),
                props == old(self)@.props,
                steady(*fl),
                samples(*s),
                u == unit(*fl),
                sm == sampler(*s),
                es == implicit_models(self.implicit@),
                n == self.implicit@.len(),
                i <= n,
                implicit_models(left@) == moving_left(u, es, dt, i as int),
                px_models(ups@) == moved_values(u, sm, es, dt, i as int),
                ups@.len() == i,
            decreases n - i,
        {
            let e = &self.implicit[i];
            assert(es[i as int] == e@);
            let moved = ImplicitEntry {
                id: e.id,
                prop: copy(e.prop.as_str()),
                from: e.from,
                to: e.to,
                anim: e.anim,
                elapsed: sum(fl, e.elapsed, dt),
            };
            let ghost a = moved@;
            assert(a == aged(u, es[i as int], dt));
            let v: u32 = moved.value(fl, s);
            let ghost was = ups@;
            ups.push((moved.id, copy(moved.prop.as_str()), v));
            assert(px_models(ups@) =~= px_models(was).push((a.id, a.prop, ValueModel::Px(v))));
            self.prop_snapshot.insert(moved.id, moved.prop.as_str(), v);
            if !moved.is_done() {
                let ghost was = left@;
                left.push(moved);
                assert(implicit_models(left@) =~= implicit_models(was).push(a));
            }
            i += 1;
        }
        self.implicit = left;
        self.apply_values(&ups);
        self.implicit.len() > 0
    }

    /// One frame: looks for what changed, lets springs and animations go on for `dt` seconds, and
    /// lays the document out. `true` exactly when something goes on.
    pub fn tick<
        F: Fn(&FloatOp) -> Option<u64>,
        E: Fn(&Plan) -> Option<Vec<Frame>>,
        G: Fn(Spring, SpringState, u32, u32) -> (SpringState, bool),
        S: Fn(Animation, u32) -> u32,
    >(&mut self, dt: u32, fl: &F, engine: &E, g: &G, s: &S) -> (r: bool)
        requires
            sound(old(self)@),
            steady(*fl),
            engages(*engine),
            steps(*g),
            samples(*s),
        ensures
            relaid(
                *engine,
                unit(*fl),
                frame(unit(*fl), sampler(*s), stepper(*g), old(self)@, dt),
                final(self)@,
            ),
            r == (final(self)@.springs.len() > 0 || final(self)@.implicit.len() > 0),
            sound(final(self)@),
    {
        self.detect_implicit_animations(fl, s);
        let spring_running = self.step_springs(dt, g);
        let implicit_running = self.advance_implicit(dt, fl, s);
        self.relayout(fl, engine);
        spring_running || implicit_running
    }
}

/// The interface after one frame of `dt` seconds, before it is laid out.
pub open spec fn frame(fl: Unit, s: Sampler, g: Stepper, m: RuntimeModel, dt: u32) -> RuntimeModel {
    advanced(fl, s, sprung(g, detected(fl, s, m), dt), dt)
}

spec fn px_models(s: Seq<(NodeId, String, u32)>) -> Seq<(NodeId, Seq<char>, ValueModel)> {
    s.map_values(|u: (NodeId, String, u32)| (u.0, u.1@, ValueModel::Px(u.2)))
}

fn note_numbers<F: Fn(&FloatOp) -> Option<u64>>(id: NodeId, node: &Node, snap: &mut PropTable, fl: &F)
    requires
        steady(*fl),
    ensures
        final(snap)@ == node_numbers(unit(*fl), old(snap)@, id, node@, 6),
{
    let ghost base = snap@;
    let mut i: usize = 0;
    while i < 6
        invariant
            steady(*fl),
            i <= 6,
            snap@ == node_numbers(unit(*fl), base, id, node@, i as int),
        decreases 6 - i,
    {
        let p = watched_prop(i);
        match number_of(node, p, fl) {
            Some(v) => {
                snap.insert(id, p, v);
            },
            None => {},
        }
        i += 1;
    }
}

proof fn lemma_take_set(s: Seq<NodeId>, i: int)
    requires
        0 <= i < s.len(),
    ensures
        s.take(i + 1).to_set() == s.take(i).to_set().insert(s[i]),
{
    let a = s.take(i);
    let b = s.take(i + 1);
    assert(b =~= a.push(s[i]));
    assert forall|x: NodeId| #[trigger] b.to_set().contains(x) == a.to_set().insert(s[i]).contains(x) by {
        if b.contains(x) {
            let j = choose|j: int| 0 <= j < b.len() && b[j] == x;
            if j < i {
                assert(a[j] == x);
            }
        }
        if a.contains(x) {
            let j = choose|j: int| 0 <= j < a.len() && a[j] == x;
            assert(b[j] == x);
        }
        assert(b[i] == s[i]);
    }
    assert(b.to_set() =~= a.to_set().insert(s[i]));
}

proof fn lemma_begun_keeps(m: RuntimeModel, es: Seq<EntryModel>, k: int)
    ensures
        begun(m, es, k) == (RuntimeModel {
            props: begun(m, es, k).props,
            implicit: begun(m, es, k).implicit,
            ..m
        }),
    decreases k,
{
    if k > 0 {
        lemma_begun_keeps(m, es, k - 1);
    }
}

} // verus!
