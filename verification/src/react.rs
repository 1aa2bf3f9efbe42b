//! The graph under reactive values: which computation read what, what must be computed again
//! after a change, and which effects are due.
use vstd::prelude::*;

verus! {

/// What a node of the graph is.
#[derive(Debug, Clone, Copy, PartialEq, Eq, Structural)]
pub enum Role {
    /// A value that is set from outside.
    Signal,
    /// A value computed from others and kept until one of them changes.
    Memo,
    /// A computation that runs again when something it read changes.
    Effect,
}

#[derive(Debug)]
struct Cell {
    role: Role,
    dirty: bool,
    sources: Vec<usize>,
    subscribers: Vec<usize>,
}

/// A node of the graph as mathematics.
#[verifier::ext_equal]
pub struct CellModel {
    pub role: Role,
    /// Its value must be computed again before it is read.
    pub dirty: bool,
    /// The nodes that it read in its last run.
    pub sources: Set<usize>,
    /// The nodes that read it in their last run.
    pub subscribers: Set<usize>,
}

impl View for Cell {
    type V = CellModel;

    closed spec fn view(&self) -> CellModel {
        CellModel {
            role: self.role,
            dirty: self.dirty,
            sources: self.sources@.to_set(),
            subscribers: self.subscribers@.to_set(),
        }
    }
}

/// The graph of signals, memos and effects.
#[derive(Debug)]
pub struct Graph {
    cells: Vec<Cell>,
    observers: Vec<usize>,
    pending: Vec<usize>,
    flushing: bool,
}

/// A [`Graph`] as mathematics.
#[verifier::ext_equal]
pub struct GraphModel {
    pub cells: Seq<CellModel>,
    /// The nodes that are running, the innermost last.
    pub observers: Seq<usize>,
    /// The effects that are due.
    pub pending: Seq<usize>,
    /// The effects that are due are being run.
    pub flushing: bool,
}

spec fn cell_models(s: Seq<Cell>) -> Seq<CellModel> {
    s.map_values(|c: Cell| c@)
}

impl View for Graph {
    type V = GraphModel;

    closed spec fn view(&self) -> GraphModel {
        GraphModel {
            cells: cell_models(self.cells@),
            observers: self.observers@,
            pending: self.pending@,
            flushing: self.flushing,
        }
    }
}

/// Every edge has two ends that agree and stays in the graph.
pub open spec fn linked(g: GraphModel) -> bool {
    let n = g.cells.len();
    &&& forall|a: int, b: usize|
        0 <= a < n && #[trigger] g.cells[a].sources.contains(b) ==> b < n
            && g.cells[b as int].subscribers.contains(a as usize)
    &&& forall|a: int, b: usize|
        0 <= a < n && #[trigger] g.cells[a].subscribers.contains(b) ==> b < n
            && g.cells[b as int].sources.contains(a as usize)
    &&& n <= usize::MAX
    &&& forall|i: int| 0 <= i < g.observers.len() ==> #[trigger] g.observers[i] < n
    &&& forall|i: int| 0 <= i < g.pending.len() ==> #[trigger] g.pending[i] < n
}

/// A graph without nodes.
pub open spec fn no_graph() -> GraphModel {
    GraphModel {
        cells: Seq::empty(),
        observers: Seq::empty(),
        pending: Seq::empty(),
        flushing: false,
    }
}

/// The graph after the innermost running node read `source`.
pub open spec fn noted(g: GraphModel, source: usize) -> GraphModel {
    if g.observers.len() == 0 || g.observers.last() == source {
        g
    } else {
        let o = g.observers.last();
        let s = g.cells[source as int];
        let c1 = g.cells.update(
            source as int,
            CellModel { subscribers: s.subscribers.insert(o), ..s },
        );
        let w = c1[o as int];
        GraphModel {
            cells: c1.update(o as int, CellModel { sources: w.sources.insert(source), ..w }),
            ..g
        }
    }
}

/// The graph as a node starts to run: it has read nothing yet, and it stands as the innermost
/// running node. While it runs it counts as a signal.
pub open spec fn begun(g: GraphModel, key: usize) -> GraphModel {
    GraphModel {
        cells: Seq::new(
            g.cells.len(),
            |i: int|
                {
                    let c = g.cells[i];
                    CellModel {
                        role: if i == key {
                            Role::Signal
                        } else {
                            c.role
                        },
                        dirty: c.dirty,
                        sources: if i == key {
                            Set::empty()
                        } else {
                            c.sources
                        },
                        subscribers: c.subscribers.remove(key),
                    }
                },
        ),
        observers: g.observers.push(key),
        ..g
    }
}

/// The graph after a node has run.
pub open spec fn ended(g: GraphModel, key: usize, role: Role) -> GraphModel {
    let c = g.cells[key as int];
    GraphModel {
        cells: g.cells.update(key as int, CellModel { role, dirty: false, ..c }),
        observers: if g.observers.len() > 0 {
            g.observers.drop_last()
        } else {
            g.observers
        },
        ..g
    }
}

/// A change passes through the node: it is no effect, and it was good before.
pub open spec fn passes(g: GraphModel, k: usize) -> bool {
    k < g.cells.len() && g.cells[k as int].role != Role::Effect && !g.cells[k as int].dirty
}

/// A change passes through `a` on to `b`.
pub open spec fn step_on(g: GraphModel, a: usize, b: usize) -> bool {
    passes(g, a) && g.cells[a as int].subscribers.contains(b)
}

/// The nodes of `p` lie one behind the other downstream of `key`, and a change passes through
/// all but the last.
pub open spec fn path(g: GraphModel, key: usize, p: Seq<usize>) -> bool {
    &&& p.len() > 0
    &&& g.cells[key as int].subscribers.contains(p[0])
    &&& forall|i: int, j: int| 0 <= i < p.len() - 1 && j == i + 1 ==> #[trigger] step_on(g, p[i], p[j])
}

/// A change of `key` reaches `k`.
pub open spec fn reached(g: GraphModel, key: usize, k: usize) -> bool {
    exists|p: Seq<usize>| #[trigger] path(g, key, p) && p.last() == k
}

/// The graph `h` is the graph `g` after a change of `key`: what the change reaches is dirty, the
/// effects it reaches are due behind those that were, each once, and nothing else has changed.
pub open spec fn changed(g: GraphModel, h: GraphModel, key: usize) -> bool {
    &&& h.cells.len() == g.cells.len()
    &&& forall|k: usize|
        k < g.cells.len() ==> #[trigger] h.cells[k as int] == (CellModel {
            dirty: g.cells[k as int].dirty || reached(g, key, k),
            ..g.cells[k as int]
        })
    &&& h.observers == g.observers
    &&& h.flushing == g.flushing
    &&& g.pending.len() <= h.pending.len()
    &&& h.pending.take(g.pending.len() as int) == g.pending
    &&& forall|k: usize| #[trigger]
        h.pending.contains(k) <==> g.pending.contains(k) || (reached(g, key, k)
            && g.cells[k as int].role == Role::Effect)
    &&& forall|i: int, j: int|
        g.pending.len() <= i < h.pending.len() && 0 <= j < i ==> #[trigger] h.pending[i]
            != #[trigger] h.pending[j]
}

/// The graph `h` is the graph `g` after the next effect to run was taken: the one that became due
/// last of those that are still dirty. Those behind it that are good by now are passed over.
pub open spec fn next_due(g: GraphModel, h: GraphModel, r: Option<usize>) -> bool {
    let now = h.pending;
    &&& h == (GraphModel { pending: now, ..g })
    &&& now.len() <= g.pending.len()
    &&& now == g.pending.take(now.len() as int)
    &&& forall|i: int| now.len() + 1 <= i < g.pending.len() ==> !g.cells[#[trigger] g.pending[i] as int].dirty
    &&& match r {
        Some(k) => now.len() < g.pending.len() && k == g.pending[now.len() as int] && g.cells[k as int].dirty,
        None => now.len() == 0 && (g.pending.len() > 0 ==> !g.cells[g.pending[0] as int].dirty),
    }
}

/// The node can be read: its value is good, and it is no effect.
pub open spec fn readable(g: GraphModel, k: usize) -> bool {
    k < g.cells.len() && g.cells[k as int].role != Role::Effect && !g.cells[k as int].dirty
}

/// The memo must run before it can be read, and it does not run yet.
pub open spec fn startable(g: GraphModel, k: usize) -> bool {
    k < g.cells.len() && g.cells[k as int].role == Role::Memo && g.cells[k as int].dirty && !g.observers.contains(k)
}

/// What a computation that sets no signal does to the graph at a time: it reads a node that is
/// good, a memo that is not starts a run, or the innermost memo ends its run.
pub open spec fn quiet_step(a: GraphModel, b: GraphModel, memos: Set<usize>) -> bool {
    &&& linked(a)
    &&& {
        ||| exists|source: usize| readable(a, source) && b == #[trigger] noted(a, source)
        ||| exists|m: usize| memos.contains(m) && startable(a, m) && b == #[trigger] begun(a, m)
        ||| exists|m: usize|
            memos.contains(m) && a.observers.len() > 0 && m == a.observers.last() && b == #[trigger] ended(
                a,
                m,
                Role::Memo,
            )
    }
}

/// The graph goes from `g` to `h` through the states while the effect `k` runs.
pub open spec fn quiet_run(
    g: GraphModel,
    h: GraphModel,
    k: usize,
    memos: Set<usize>,
    states: Seq<GraphModel>,
) -> bool {
    &&& states.len() > 0
    &&& states[0] == begun(g, k)
    &&& forall|i: int, j: int|
        0 <= i < states.len() - 1 && j == i + 1 ==> #[trigger] quiet_step(states[i], states[j], memos)
    &&& states.last().observers == g.observers.push(k)
    &&& h == ended(states.last(), k, Role::Effect)
}

/// The graph goes from `g` to `h` while the next effect that is due, `k`, is taken and runs.
pub open spec fn one_run(g: GraphModel, h: GraphModel, k: usize, memos: Set<usize>) -> bool {
    linked(g) && exists|m: GraphModel, states: Seq<GraphModel>|
        next_due(g, m, Some(k)) && #[trigger] quiet_run(m, h, k, memos, states)
}

/// The graph goes through the states while the effects in `ks` run one after the other, until none
/// is due.
pub open spec fn flushed(states: Seq<GraphModel>, ks: Seq<usize>, memos: Set<usize>) -> bool {
    &&& states.len() == ks.len() + 1
    &&& forall|i: int, j: int|
        0 <= i < ks.len() && j == i + 1 ==> #[trigger] one_run(states[i], states[j], ks[i], memos)
    &&& exists|h: GraphModel| #[trigger] next_due(states.last(), h, None)
}

/// The graph `h` is the graph `g` after a change of `key`, as what is due starts to run.
pub open spec fn set_off(g: GraphModel, h: GraphModel, key: usize) -> bool {
    h.flushing && changed(g, (GraphModel { flushing: g.flushing, ..h }), key)
}

fn listed(v: &Vec<usize>, x: usize) -> (r: bool)
    ensures
        r == v@.contains(x),
{
    let mut i: usize = 0;
    while i < v.len()
        invariant
            i <= v@.len(),
            forall|j: int| 0 <= j < i ==> #[trigger] v@[j] != x,
        decreases v.len() - i,
    {
        if v[i] == x {
            return true;
        }
        i += 1;
    }
    false
}

fn without(v: &Vec<usize>, x: usize) -> (r: Vec<usize>)
    ensures
        r@.to_set() == v@.to_set().remove(x),
{
    let mut r: Vec<usize> = Vec::new();
    let mut i: usize = 0;
    while i < v.len()
        invariant
            i <= v@.len(),
            forall|j: int| 0 <= j < r@.len() ==> #[trigger] r@[j] != x && v@.contains(r@[j]),
            forall|j: int| 0 <= j < i && v@[j] != x ==> r@.contains(#[trigger] v@[j]),
        decreases v.len() - i,
    {
        let ghost r0 = r@;
        let y: usize = v[i];
        if y != x {
            r.push(y);
            assert(r@[r0.len() as int] == y);
            assert forall|j: int| 0 <= j < i + 1 && v@[j] != x implies r@.contains(#[trigger] v@[j]) by {
                if j < i {
                    assert(r0.contains(v@[j]));
                    let m = choose|m: int| 0 <= m < r0.len() && r0[m] == v@[j];
                    assert(r@[m] == v@[j]);
                }
            }
        }
        i += 1;
    }
    assert forall|y: usize| r@.to_set().contains(y) <==> v@.to_set().remove(x).contains(y) by {
        if v@.contains(y) && y != x {
            let j = choose|j: int| 0 <= j < v@.len() && v@[j] == y;
            assert(r@.contains(v@[j]));
        }
    }
    assert(r@.to_set() =~= v@.to_set().remove(x));
    r
}

fn keep(v: &mut Vec<usize>, x: usize)
    ensures
        final(v)@.to_set() == old(v)@.to_set().insert(x),
{
    if !listed(v, x) {
        let ghost v0 = v@;
        v.push(x);
        assert forall|y: usize| v@.to_set().contains(y) <==> v0.to_set().insert(x).contains(y) by {
            if v0.contains(y) {
                let j = choose|j: int| 0 <= j < v0.len() && v0[j] == y;
                assert(v@[j] == y);
            }
            assert(v@[v0.len() as int] == x);
        }
        assert(v@.to_set() =~= v0.to_set().insert(x));
    } else {
        assert(v@.to_set() =~= v@.to_set().insert(x));
    }
}

fn numbers(v: &Vec<usize>) -> (r: Vec<usize>)
    ensures
        r@ == v@,
{
    let mut r: Vec<usize> = Vec::new();
    let mut i: usize = 0;
    while i < v.len()
        invariant
            i <= v@.len(),
            r@ == v@.take(i as int),
        decreases v.len() - i,
    {
        r.push(v[i]);
        i += 1;
        assert(r@ =~= v@.take(i as int));
    }
    assert(r@ =~= v@);
    r
}

pub proof fn lemma_reached_inside(g: GraphModel, key: usize, k: usize)
    requires
        linked(g),
        key < g.cells.len(),
        reached(g, key, k),
    ensures
        k < g.cells.len(),
{
    let p = choose|p: Seq<usize>| #[trigger] path(g, key, p) && p.last() == k;
    let n = p.len() as int;
    if n == 1 {
        assert(g.cells[key as int].subscribers.contains(p[0]));
    } else {
        assert(step_on(g, p[n - 2], p[n - 1]));
    }
}

/// How many of the first `i` nodes a change still passes.
spec fn clean_left(h: GraphModel, i: int) -> nat
    decreases i,
{
    if i <= 0 {
        0
    } else {
        clean_left(h, i - 1) + if passes(h, (i - 1) as usize) {
            1nat
        } else {
            0nat
        }
    }
}

proof fn lemma_clean_same(a: GraphModel, b: GraphModel, i: int, k: usize)
    requires
        a.cells.len() == b.cells.len(),
        0 <= i <= a.cells.len() <= usize::MAX,
        k < a.cells.len(),
        a.cells[k as int].role == Role::Effect,
        b.cells == a.cells.update(k as int, CellModel { dirty: true, ..a.cells[k as int] }),
    ensures
        clean_left(a, i) == clean_left(b, i),
    decreases i,
{
    if i > 0 {
        lemma_clean_same(a, b, i - 1, k);
    }
}

proof fn lemma_clean_less(a: GraphModel, b: GraphModel, i: int, k: usize)
    requires
        a.cells.len() == b.cells.len(),
        0 <= i <= a.cells.len() <= usize::MAX,
        passes(a, k),
        b.cells == a.cells.update(k as int, CellModel { dirty: true, ..a.cells[k as int] }),
    ensures
        clean_left(b, i) == clean_left(a, i) - if k < i {
            1int
        } else {
            0int
        },
    decreases i,
{
    if i > 0 {
        lemma_clean_less(a, b, i - 1, k);
    }
}

/// Nothing is left to do about `k`.
spec fn settled(h: GraphModel, k: usize) -> bool {
    h.cells[k as int].dirty && (h.cells[k as int].role == Role::Effect ==> h.pending.contains(k))
}

/// The graph `h` on the way from `g`, with the nodes in `stack` still to be looked at.
spec fn partway(g: GraphModel, h: GraphModel, key: usize, stack: Seq<usize>) -> bool {
    &&& h.cells.len() == g.cells.len()
    &&& forall|k: usize|
        k < g.cells.len() ==> #[trigger] h.cells[k as int] == (CellModel {
            dirty: h.cells[k as int].dirty,
            ..g.cells[k as int]
        })
    &&& forall|k: usize|
        k < g.cells.len() && g.cells[k as int].dirty ==> #[trigger] h.cells[k as int].dirty
    &&& forall|k: usize|
        k < g.cells.len() && #[trigger] h.cells[k as int].dirty && !g.cells[k as int].dirty ==> reached(
            g,
            key,
            k,
        )
    &&& h.observers == g.observers
    &&& h.flushing == g.flushing
    &&& g.pending.len() <= h.pending.len()
    &&& h.pending.take(g.pending.len() as int) == g.pending
    &&& forall|k: usize| #[trigger]
        h.pending.contains(k) ==> g.pending.contains(k) || (reached(g, key, k)
            && g.cells[k as int].role == Role::Effect)
    &&& forall|i: int, j: int|
        g.pending.len() <= i < h.pending.len() && 0 <= j < i ==> #[trigger] h.pending[i]
            != #[trigger] h.pending[j]
    &&& forall|k: usize| #[trigger] stack.contains(k) ==> reached(g, key, k)
    &&& forall|k: usize| #[trigger]
        g.cells[key as int].subscribers.contains(k) ==> stack.contains(k) || settled(h, k)
    &&& forall|j: usize, k: usize|
        passes(g, j) && h.cells[j as int].dirty && #[trigger] g.cells[j as int].subscribers.contains(k)
            ==> stack.contains(k) || settled(h, k)
}

proof fn lemma_pop(g: GraphModel, h: GraphModel, key: usize, was: Seq<usize>, k: usize)
    requires
        partway(g, h, key, was),
        was.len() > 0,
        was.last() == k,
        settled(h, k),
    ensures
        partway(g, h, key, was.drop_last()),
{
    let now = was.drop_last();
    assert forall|x: usize| was.contains(x) implies now.contains(x) || x == k by {
        let i = choose|i: int| 0 <= i < was.len() && was[i] == x;
        if i < now.len() {
            assert(now[i] == x);
        }
    }
    assert forall|x: usize| now.contains(x) implies was.contains(x) by {
        let i = choose|i: int| 0 <= i < now.len() && now[i] == x;
        assert(was[i] == x);
    }
}

proof fn lemma_effect(g: GraphModel, h: GraphModel, m: GraphModel, key: usize, was: Seq<usize>, k: usize)
    requires
        linked(g),
        key < g.cells.len(),
        partway(g, h, key, was),
        was.len() > 0,
        was.last() == k,
        k < g.cells.len(),
        reached(g, key, k),
        g.cells[k as int].role == Role::Effect,
        m == (GraphModel {
            cells: h.cells.update(k as int, CellModel { dirty: true, ..h.cells[k as int] }),
            pending: if h.pending.contains(k) {
                h.pending
            } else {
                h.pending.push(k)
            },
            ..h
        }),
    ensures
        partway(g, m, key, was.drop_last()),
{
    let now = was.drop_last();
    assert forall|x: usize| was.contains(x) implies now.contains(x) || x == k by {
        let i = choose|i: int| 0 <= i < was.len() && was[i] == x;
        if i < now.len() {
            assert(now[i] == x);
        }
    }
    assert forall|x: usize| now.contains(x) implies was.contains(x) by {
        let i = choose|i: int| 0 <= i < now.len() && now[i] == x;
        assert(was[i] == x);
    }
    assert forall|x: usize| h.pending.contains(x) implies m.pending.contains(x) by {
        let i = choose|i: int| 0 <= i < h.pending.len() && h.pending[i] == x;
        assert(m.pending[i] == x);
    }
    assert(m.pending.contains(k)) by {
        if !h.pending.contains(k) {
            assert(m.pending[h.pending.len() as int] == k);
        }
    }
    assert forall|x: usize| m.pending.contains(x) implies h.pending.contains(x) || x == k by {
        let i = choose|i: int| 0 <= i < m.pending.len() && m.pending[i] == x;
        if i < h.pending.len() {
            assert(h.pending[i] == x);
        }
    }
    assert(m.pending.take(g.pending.len() as int) =~= g.pending) by {
        assert(h.pending.take(g.pending.len() as int) =~= m.pending.take(g.pending.len() as int));
    }
    assert forall|i: int, j: int| g.pending.len() <= i < m.pending.len() && 0 <= j < i implies #[trigger] m.pending[i]
        != #[trigger] m.pending[j] by {
        if i < h.pending.len() {
            assert(h.pending[i] != h.pending[j]);
        } else {
            assert(h.pending[j] == m.pending[j]);
            assert(h.pending.contains(h.pending[j]));
        }
    }
    assert forall|x: usize| settled(h, x) && x < g.cells.len() implies settled(m, x) by {}
    assert(settled(m, k));
    assert forall|x: usize|
        x < g.cells.len() && g.cells[x as int].dirty implies #[trigger] m.cells[x as int].dirty by {
        assert(h.cells[x as int].dirty);
    }
    lemma_edges(g, h, m, key, was, now, k);
}

/// The edges stay accounted for when only `k` was looked at.
proof fn lemma_edges(
    g: GraphModel,
    h: GraphModel,
    m: GraphModel,
    key: usize,
    was: Seq<usize>,
    now: Seq<usize>,
    k: usize,
)
    requires
        linked(g),
        key < g.cells.len(),
        partway(g, h, key, was),
        k < g.cells.len(),
        h.cells[k as int].role == Role::Effect,
        m.cells == h.cells.update(k as int, CellModel { dirty: true, ..h.cells[k as int] }),
        settled(m, k),
        forall|x: usize| #[trigger] was.contains(x) ==> now.contains(x) || x == k,
        forall|x: usize| #[trigger] h.pending.contains(x) ==> m.pending.contains(x),
    ensures
        forall|x: usize| #[trigger]
            g.cells[key as int].subscribers.contains(x) ==> now.contains(x) || settled(m, x),
        forall|j: usize, x: usize|
            passes(g, j) && m.cells[j as int].dirty && #[trigger] g.cells[j as int].subscribers.contains(x)
                ==> now.contains(x) || settled(m, x),
{
    assert forall|x: usize| x < g.cells.len() && settled(h, x) implies settled(m, x) by {
        if x != k {
            assert(m.cells[x as int] == h.cells[x as int]);
        }
    }
    assert forall|j: usize, x: usize|
        passes(g, j) && m.cells[j as int].dirty && #[trigger] g.cells[j as int].subscribers.contains(x) implies now.contains(
        x) || settled(m, x) by {
        assert(h.cells[j as int] == (CellModel { dirty: h.cells[j as int].dirty, ..g.cells[j as int] }));
        assert(j != k);
        assert(h.cells[j as int].dirty);
    }
}

proof fn lemma_memo(
    g: GraphModel,
    h: GraphModel,
    m: GraphModel,
    key: usize,
    was: Seq<usize>,
    k: usize,
    more: Seq<usize>,
)
    requires
        linked(g),
        key < g.cells.len(),
        partway(g, h, key, was),
        was.len() > 0,
        was.last() == k,
        k < g.cells.len(),
        reached(g, key, k),
        passes(h, k),
        m == (GraphModel {
            cells: h.cells.update(k as int, CellModel { dirty: true, ..h.cells[k as int] }),
            ..h
        }),
        more.to_set() == g.cells[k as int].subscribers,
    ensures
        partway(g, m, key, was.drop_last() + more),
{
    let rest = was.drop_last();
    let now = rest + more;
    assert(h.cells[k as int] == (CellModel { dirty: h.cells[k as int].dirty, ..g.cells[k as int] }));
    assert(passes(g, k));
    assert(settled(m, k));
    assert forall|x: usize| was.contains(x) implies now.contains(x) || x == k by {
        let i = choose|i: int| 0 <= i < was.len() && was[i] == x;
        if i < rest.len() {
            assert(now[i] == x);
        }
    }
    assert forall|x: usize| #[trigger] more.contains(x) implies now.contains(x) by {
        let i = choose|i: int| 0 <= i < more.len() && more[i] == x;
        assert(now[rest.len() + i] == x);
    }
    let p = choose|p: Seq<usize>| #[trigger] path(g, key, p) && p.last() == k;
    assert forall|x: usize| #[trigger] now.contains(x) implies reached(g, key, x) by {
        let i = choose|i: int| 0 <= i < now.len() && now[i] == x;
        if i < rest.len() {
            assert(was[i] == x);
            assert(was.contains(x));
        } else {
            assert(more[i - rest.len()] == x);
            assert(more.to_set().contains(x));
            let q = p.push(x);
            assert forall|i: int, j: int| 0 <= i < q.len() - 1 && j == i + 1 implies #[trigger] step_on(
                g,
                q[i],
                q[j],
            ) by {
                if i < p.len() - 1 {
                    assert(step_on(g, p[i], p[j]));
                }
            }
            assert(path(g, key, q) && q.last() == x);
        }
    }
    assert forall|x: usize| x < g.cells.len() && settled(h, x) implies settled(m, x) by {
        if x != k {
            assert(m.cells[x as int] == h.cells[x as int]);
        }
    }
    assert forall|j: usize, x: usize|
        passes(g, j) && m.cells[j as int].dirty && #[trigger] g.cells[j as int].subscribers.contains(x) implies now.contains(
        x) || settled(m, x) by {
        if j == k {
            assert(more.to_set().contains(x));
            assert(more.contains(x));
        } else {
            assert(h.cells[j as int].dirty);
        }
    }
}

proof fn lemma_all_settled(g: GraphModel, h: GraphModel, key: usize, p: Seq<usize>, i: int)
    requires
        linked(g),
        key < g.cells.len(),
        partway(g, h, key, Seq::empty()),
        path(g, key, p),
        0 <= i < p.len(),
    ensures
        settled(h, p[i]),
        p[i] < g.cells.len(),
    decreases i,
{
    let none = Seq::<usize>::empty();
    assert(!none.contains(p[i]));
    if i == 0 {
        assert(g.cells[key as int].subscribers.contains(p[0]));
    } else {
        lemma_all_settled(g, h, key, p, i - 1);
        assert(step_on(g, p[i - 1], p[i]));
    }
}

proof fn lemma_links_kept(g: GraphModel, h: GraphModel)
    requires
        linked(g),
        h.cells.len() == g.cells.len(),
        forall|k: int| #![trigger h.cells[k]]
            0 <= k < g.cells.len() ==> h.cells[k].sources == g.cells[k].sources && h.cells[k].subscribers
                == g.cells[k].subscribers,
        h.observers == g.observers,
        forall|i: int| 0 <= i < h.pending.len() ==> #[trigger] h.pending[i] < h.cells.len(),
    ensures
        linked(h),
{
    assert forall|a: int, b: usize|
        0 <= a < h.cells.len() && #[trigger] h.cells[a].sources.contains(b) implies b < h.cells.len()
        && h.cells[b as int].subscribers.contains(a as usize) by {
        assert(h.cells[a].sources == g.cells[a].sources);
        assert(g.cells[a].sources.contains(b));
        assert(h.cells[b as int].subscribers == g.cells[b as int].subscribers);
    }
    assert forall|a: int, b: usize|
        0 <= a < h.cells.len() && #[trigger] h.cells[a].subscribers.contains(b) implies b < h.cells.len()
        && h.cells[b as int].sources.contains(a as usize) by {
        assert(h.cells[a].subscribers == g.cells[a].subscribers);
        assert(g.cells[a].subscribers.contains(b));
        assert(h.cells[b as int].sources == g.cells[b as int].sources);
    }
}

proof fn lemma_partway_done(g: GraphModel, h: GraphModel, key: usize)
    requires
        linked(g),
        key < g.cells.len(),
        partway(g, h, key, Seq::empty()),
    ensures
        changed(g, h, key),
        linked(h),
{
    assert forall|k: usize| #[trigger] reached(g, key, k) implies settled(h, k) && k < g.cells.len() by {
        let p = choose|p: Seq<usize>| #[trigger] path(g, key, p) && p.last() == k;
        lemma_all_settled(g, h, key, p, p.len() - 1);
    }
    assert forall|k: usize| k < g.cells.len() implies #[trigger] h.cells[k as int] == (CellModel {
        dirty: g.cells[k as int].dirty || reached(g, key, k),
        ..g.cells[k as int]
    }) by {
        assert(h.cells[k as int].dirty && !g.cells[k as int].dirty ==> reached(g, key, k));
        assert(reached(g, key, k) ==> settled(h, k));
    }
    assert forall|k: usize| #[trigger] h.pending.contains(k) <==> g.pending.contains(k) || (reached(g, key, k)
        && g.cells[k as int].role == Role::Effect) by {
        if g.pending.contains(k) {
            let i = choose|i: int| 0 <= i < g.pending.len() && g.pending[i] == k;
            assert(h.pending.take(g.pending.len() as int)[i] == h.pending[i]);
            assert(h.pending[i] == k);
        }
        if reached(g, key, k) && g.cells[k as int].role == Role::Effect {
            assert(settled(h, k));
            assert(h.cells[k as int].role == Role::Effect);
        }
    }
    assert forall|i: int| 0 <= i < h.pending.len() implies #[trigger] h.pending[i] < h.cells.len() by {
        let k = h.pending[i];
        assert(h.pending.contains(k));
        if g.pending.contains(k) {
            let j = choose|j: int| 0 <= j < g.pending.len() && g.pending[j] == k;
            assert(g.pending[j] < g.cells.len());
        }
    }
    assert forall|k: int| #![trigger h.cells[k]]
        0 <= k < g.cells.len() implies h.cells[k].sources == g.cells[k].sources && h.cells[k].subscribers
        == g.cells[k].subscribers by {
        assert(h.cells[(k as usize) as int] == (CellModel {
            dirty: h.cells[k].dirty,
            ..g.cells[k]
        }));
    }
    lemma_links_kept(g, h);
}

impl Graph {
    /// A graph without nodes.
    pub fn new() -> (r: Graph)
        ensures
            r@ == no_graph(),
            linked(r@),
    {
        let r = Graph {
            cells: Vec::new(),
            observers: Vec::new(),
            pending: Vec::new(),
            flushing: false,
        };
        assert(r@ =~= no_graph());
        r
    }

    /// Adds a node. A signal is good from the start; a memo or an effect has yet to run.
    pub fn add_node(&mut self, role: Role) -> (r: usize)
        requires
            linked(old(self)@),
        ensures
            r == old(self)@.cells.len(),
            final(self)@ == (GraphModel {
                cells: old(self)@.cells.push(
                    CellModel {
                        role,
                        dirty: role != Role::Signal,
                        sources: Set::empty(),
                        subscribers: Set::empty(),
                    },
                ),
                ..old(self)@
            }),
            linked(final(self)@),
    {
        let r: usize = self.cells.len();
        let c = Cell {
            role,
            dirty: role != Role::Signal,
            sources: Vec::new(),
            subscribers: Vec::new(),
        };
        assert(c@.sources =~= Set::empty());
        assert(c@.subscribers =~= Set::empty());
        let ghost g = self@;
        self.cells.push(c);
        assert(self@.cells =~= g.cells.push(c@));
        assert(self.cells.len() == r + 1);
        r
    }

    /// How many nodes there are.
    pub fn len(&self) -> (r: usize)
        ensures
            r == self@.cells.len(),
    {
        self.cells.len()
    }

    /// Notes that the innermost running node, if there is one, read `source`.
    pub fn track(&mut self, source: usize)
        requires
            linked(old(self)@),
            source < old(self)@.cells.len(),
        ensures
            final(self)@ == noted(old(self)@, source),
            linked(final(self)@),
    {
        let n: usize = self.observers.len();
        if n == 0 {
            return;
        }
        let observer: usize = self.observers[n - 1];
        assert(self@.observers.last() == observer);
        if observer == source {
            return;
        }
        let ghost g = self@;
        let ghost c0 = self.cells@;
        assert(g.observers[n - 1] < g.cells.len());
        keep(&mut self.cells[source].subscribers, observer);
        let ghost c1 = self.cells@;
        assert(cell_models(c1) =~= cell_models(c0).update(source as int, c1[source as int]@));
        keep(&mut self.cells[observer].sources, source);
        let ghost c2 = self.cells@;
        assert(cell_models(c2) =~= cell_models(c1).update(observer as int, c2[observer as int]@));
        assert(self@ =~= noted(g, source));
    }

    /// `true` when the node must be computed again.
    pub fn is_dirty(&self, key: usize) -> (r: bool)
        requires
            key < self@.cells.len(),
        ensures
            r == self@.cells[key as int].dirty,
    {
        self.cells[key].dirty
    }

    /// Prepares the run of a node: forgets what it read before and makes it the innermost running
    /// node. Returns what the node is.
    pub fn begin_run(&mut self, key: usize) -> (r: Role)
        requires
            linked(old(self)@),
            key < old(self)@.cells.len(),
        ensures
            r == old(self)@.cells[key as int].role,
            final(self)@ == begun(old(self)@, key),
            linked(final(self)@),
    {
        let ghost g = self@;
        let old_sources = numbers(&self.cells[key].sources);
        let mut i: usize = 0;
        assert(g.cells[key as int].sources == old_sources@.to_set());
        while i < old_sources.len()
            invariant
                linked(g),
                key < g.cells.len(),
                i <= old_sources@.len(),
                g.cells[key as int].sources == old_sources@.to_set(),
                self.cells@.len() == g.cells.len(),
                self.observers@ == g.observers,
                self.pending@ == g.pending,
                self.flushing == g.flushing,
                forall|a: int|
                    0 <= a < g.cells.len() ==> {
                        &&& (#[trigger] self.cells@[a])@.role == g.cells[a].role
                        &&& self.cells@[a]@.dirty == g.cells[a].dirty
                        &&& self.cells@[a]@.sources == g.cells[a].sources
                        &&& self.cells@[a]@.subscribers == if old_sources@.take(i as int).contains(
                            a as usize,
                        ) {
                            g.cells[a].subscribers.remove(key)
                        } else {
                            g.cells[a].subscribers
                        }
                    },
            decreases old_sources.len() - i,
        {
            let s: usize = old_sources[i];
            assert(old_sources@.to_set().contains(s));
            let ghost c0 = self.cells@;
            let rest = without(&self.cells[s].subscribers, key);
            self.cells[s].subscribers = rest;
            let ghost done = old_sources@.take(i as int);
            i += 1;
            let ghost now = old_sources@.take(i as int);
            assert(now =~= done.push(s));
            assert forall|a: int| 0 <= a < g.cells.len() implies {
                &&& (#[trigger] self.cells@[a])@.role == g.cells[a].role
                &&& self.cells@[a]@.dirty == g.cells[a].dirty
                &&& self.cells@[a]@.sources == g.cells[a].sources
                &&& self.cells@[a]@.subscribers == if now.contains(a as usize) {
                    g.cells[a].subscribers.remove(key)
                } else {
                    g.cells[a].subscribers
                }
            } by {
                assert(c0[a]@.role == g.cells[a].role);
                if done.contains(a as usize) {
                    let j = choose|j: int| 0 <= j < done.len() && done[j] == a as usize;
                    assert(now[j] == a as usize);
                }
                if now.contains(a as usize) && a != s {
                    let j = choose|j: int| 0 <= j < now.len() && now[j] == a as usize;
                    assert(done[j] == a as usize);
                }
                if a == s {
                    assert(now[i - 1] == s);
                    assert(g.cells[a].subscribers.remove(key).remove(key)
                        =~= g.cells[a].subscribers.remove(key));
                }
            }
        }
        assert(old_sources@.take(i as int) =~= old_sources@);
        let role: Role = self.cells[key].role;
        let ghost c1 = self.cells@;
        self.cells[key].sources = Vec::new();
        self.cells[key].role = Role::Signal;
        self.observers.push(key);
        proof {
            let want = begun(g, key);
            assert forall|a: int| 0 <= a < g.cells.len() implies #[trigger] self@.cells[a] == want.cells[a] by {
                assert(c1[a]@.role == g.cells[a].role);
                let c = self.cells@[a];
                if !old_sources@.contains(a as usize) {
                    assert(!g.cells[key as int].sources.contains(a as usize));
                    assert(!g.cells[a].subscribers.contains(key));
                    assert(g.cells[a].subscribers.remove(key) =~= g.cells[a].subscribers);
                }
                if a == key {
                    assert(c@.sources =~= Set::empty());
                }
            }
            assert(self@.cells =~= want.cells);
            assert(self@ =~= want);
            assert(linked(want)) by {
                assert forall|a: int, b: usize|
                    0 <= a < want.cells.len() && #[trigger] want.cells[a].sources.contains(b) implies b
                    < want.cells.len() && want.cells[b as int].subscribers.contains(a as usize) by {
                    assert(g.cells[a].sources.contains(b));
                }
                assert forall|a: int, b: usize|
                    0 <= a < want.cells.len() && #[trigger] want.cells[a].subscribers.contains(b) implies b
                    < want.cells.len() && want.cells[b as int].sources.contains(a as usize) by {
                    assert(g.cells[a].subscribers.contains(b));
                }
                assert forall|i: int| 0 <= i < want.observers.len() implies #[trigger] want.observers[i]
                    < want.cells.len() by {
                    if i < g.observers.len() {
                        assert(g.observers[i] < g.cells.len());
                    }
                }
            }
        }
        role
    }

    /// Notes that the innermost run is over and that the node `key`, which is a `role`, is good.
    pub fn end_run(&mut self, key: usize, role: Role)
        requires
            linked(old(self)@),
            key < old(self)@.cells.len(),
        ensures
            final(self)@ == ended(old(self)@, key, role),
            linked(final(self)@),
    {
        let ghost g = self@;
        let _last = self.observers.pop();
        self.cells[key].role = role;
        self.cells[key].dirty = false;
        proof {
            let want = ended(g, key, role);
            assert(self@.cells =~= want.cells);
            assert(self@.observers =~= want.observers);
            assert(self@ =~= want);
            assert(linked(want)) by {
                assert forall|a: int, b: usize|
                    0 <= a < want.cells.len() && #[trigger] want.cells[a].sources.contains(b) implies b
                    < want.cells.len() && want.cells[b as int].subscribers.contains(a as usize) by {
                    assert(g.cells[a].sources.contains(b));
                }
                assert forall|a: int, b: usize|
                    0 <= a < want.cells.len() && #[trigger] want.cells[a].subscribers.contains(b) implies b
                    < want.cells.len() && want.cells[b as int].sources.contains(a as usize) by {
                    assert(g.cells[a].subscribers.contains(b));
                }
            }
        }
    }

    /// Marks what a change of `key` reaches: memos and effects become dirty, effects become due.
    pub fn mark_subscribers_dirty(&mut self, key: usize)
        requires
            linked(old(self)@),
            key < old(self)@.cells.len(),
        ensures
            changed(old(self)@, final(self)@, key),
            linked(final(self)@),
    {
        let ghost g = self@;
        let mut stack = numbers(&self.cells[key].subscribers);
        proof {
            assert(g.cells[key as int] == self.cells@[key as int]@);
            assert forall|k: usize| #[trigger] stack@.contains(k) implies reached(g, key, k) by {
                assert(stack@.to_set().contains(k));
                let p = seq![k];
                assert(path(g, key, p) && p.last() == k);
            }
            assert forall|k: usize| #[trigger] g.cells[key as int].subscribers.contains(k) implies stack@.contains(
                k,
            ) by {}
            assert(g.pending.take(g.pending.len() as int) =~= g.pending);
        }
        let ghost n: nat = g.cells.len();
        while stack.len() > 0
            invariant
                g == old(self)@,
                linked(g),
                key < n,
                n == g.cells.len(),
                partway(g, self@, key, stack@),
                self.cells@.len() == n,
            decreases clean_left(self@, n as int), stack@.len(),
        {
            let ghost h = self@;
            let ghost was = stack@;
            let k: usize = match stack.pop() {
                Some(k) => k,
                None => {
                    return;
                },
            };
            assert(was == stack@.push(k));
            assert(was.contains(k)) by {
                assert(was[was.len() - 1] == k);
            }
            assert(reached(g, key, k));
            proof {
                lemma_reached_inside(g, key, k);
            }
            assert(h.cells[k as int] == self.cells@[k as int]@);
            let role: Role = self.cells[k].role;
            if self.cells[k].dirty && role != Role::Effect {
                proof {
                    assert(partway(g, h, key, stack@)) by {
                        lemma_pop(g, h, key, was, k);
                    }
                }
                continue;
            }
            self.cells[k].dirty = true;
            let ghost h1 = self@;
            assert(h1.cells =~= h.cells.update(k as int, CellModel { dirty: true, ..h.cells[k as int] }));
            if role == Role::Effect {
                if !listed(&self.pending, k) {
                    self.pending.push(k);
                }
                proof {
                    assert(self@.cells == h1.cells);
                    lemma_effect(g, h, self@, key, was, k);
                    lemma_clean_same(h, self@, n as int, k);
                }
            } else {
                let more = numbers(&self.cells[k].subscribers);
                let ghost base = stack@;
                let mut i: usize = 0;
                assert(base =~= base + more@.take(0));
                while i < more.len()
                    invariant
                        i <= more@.len(),
                        stack@ == base + more@.take(i as int),
                    decreases more.len() - i,
                {
                    stack.push(more[i]);
                    i += 1;
                    assert(stack@ =~= base + more@.take(i as int));
                }
                assert(more@.take(i as int) =~= more@);
                proof {
                    assert(g.cells[k as int].subscribers == more@.to_set());
                    lemma_memo(g, h, self@, key, was, k, more@);
                    lemma_clean_less(h, self@, n as int, k);
                }
            }
        }
        proof {
            lemma_partway_done(g, self@, key);
        }
    }

    /// Starts to run the effects that are due. `false` when that is going on already.
    pub fn begin_flush(&mut self) -> (r: bool)
        requires
            linked(old(self)@),
        ensures
            r == !old(self)@.flushing,
            final(self)@ == (GraphModel { flushing: true, ..old(self)@ }),
            linked(final(self)@),
    {
        if self.flushing {
            false
        } else {
            self.flushing = true;
            true
        }
    }

    /// The next effect to run: the one that became due last. Those that are good by now are
    /// passed over.
    pub fn next_effect(&mut self) -> (r: Option<usize>)
        requires
            linked(old(self)@),
        ensures
            linked(final(self)@),
            next_due(old(self)@, final(self)@, r),
    {
        let ghost g = self@;
        let mut left: usize = self.pending.len();
        assert(self.pending@.take(left as int) =~= self.pending@);
        while left > 0
            invariant
                g == old(self)@,
                linked(g),
                linked(self@),
                self@ == (GraphModel { pending: self.pending@, ..g }),
                left == self.pending@.len(),
                left <= g.pending.len(),
                self.pending@ == g.pending.take(left as int),
                forall|i: int|
                    left <= i < g.pending.len() ==> !g.cells[#[trigger] g.pending[i] as int].dirty,
            decreases left,
        {
            let k = self.pending.pop();
            left -= 1;
            assert(self.pending@ =~= g.pending.take(left as int));
            assert(self@ =~= (GraphModel { pending: self.pending@, ..g }));
            match k {
                Some(k) => {
                    assert(k == g.pending[left as int]);
                    assert(g.cells[k as int] == self.cells@[k as int]@);
                    if self.cells[k].dirty {
                        return Some(k);
                    }
                },
                None => {},
            }
        }
        None
    }

    /// Notes that no effect is due any more.
    pub fn end_flush(&mut self)
        requires
            linked(old(self)@),
        ensures
            final(self)@ == (GraphModel { flushing: false, ..old(self)@ }),
            linked(final(self)@),
    {
        self.flushing = false;
    }
}

/// A change of a node that nothing has read changes nothing else.
pub proof fn law_unread_change_is_silent(g: GraphModel, h: GraphModel, key: usize)
    requires
        linked(g),
        key < g.cells.len(),
        g.cells[key as int].subscribers == Set::<usize>::empty(),
        changed(g, h, key),
    ensures
        h == g,
{
    assert forall|k: usize| !#[trigger] reached(g, key, k) by {
        if reached(g, key, k) {
            let p = choose|p: Seq<usize>| #[trigger] path(g, key, p) && p.last() == k;
            assert(g.cells[key as int].subscribers.contains(p[0]));
        }
    }
    assert forall|k: int| 0 <= k < g.cells.len() implies h.cells[k] == g.cells[k] by {
        assert(h.cells[(k as usize) as int] == (CellModel {
            dirty: g.cells[k].dirty || reached(g, key, k as usize),
            ..g.cells[k]
        }));
    }
    assert(h.cells =~= g.cells);
    if h.pending.len() > g.pending.len() {
        let n = g.pending.len() as int;
        let k = h.pending[n];
        assert(h.pending.contains(k));
        assert(g.pending.contains(k));
        let j = choose|j: int| 0 <= j < g.pending.len() && g.pending[j] == k;
        assert(h.pending.take(n)[j] == h.pending[j]);
        assert(h.pending[n] != h.pending[j]);
    }
    assert(h.pending.take(h.pending.len() as int) =~= h.pending);
    assert(h =~= g);
}

/// A run starts with no dependencies: until the node reads something again, a change of any node
/// passes it by.
pub proof fn law_run_forgets_dependencies(g: GraphModel, key: usize, source: usize)
    requires
        linked(g),
        key < g.cells.len(),
        source < g.cells.len(),
    ensures
        begun(g, key).cells[key as int].sources == Set::<usize>::empty(),
        !begun(g, key).cells[source as int].subscribers.contains(key),
        !reached(begun(g, key), source, key),
{
    let b = begun(g, key);
    if reached(b, source, key) {
        let p = choose|p: Seq<usize>| #[trigger] path(b, source, p) && p.last() == key;
        let n = p.len() as int;
        if n == 1 {
            assert(b.cells[source as int].subscribers.contains(p[0]));
        } else {
            assert(step_on(b, p[n - 2], p[n - 1]));
        }
    }
}

/// A change of a node makes everything that read it in its last run dirty, and makes it due where
/// it is an effect.
pub proof fn law_readers_notice(g: GraphModel, h: GraphModel, key: usize, reader: usize)
    requires
        linked(g),
        key < g.cells.len(),
        g.cells[key as int].subscribers.contains(reader),
        changed(g, h, key),
    ensures
        h.cells[reader as int].dirty,
        g.cells[reader as int].role == Role::Effect ==> h.pending.contains(reader),
{
    let p = seq![reader];
    assert(path(g, key, p) && p.last() == reader);
    assert(reached(g, key, reader));
    assert(h.cells[reader as int] == (CellModel {
        dirty: g.cells[reader as int].dirty || reached(g, key, reader),
        ..g.cells[reader as int]
    }));
}

/// None of the memos is an effect.
pub open spec fn no_effects(g: GraphModel, memos: Set<usize>) -> bool {
    forall|m: usize| #[trigger] memos.contains(m) && m < g.cells.len() ==> g.cells[m as int].role != Role::Effect
}

/// The effects other than `k` stand in `h` as they do in `g`, and the same are due.
spec fn others_stand(g: GraphModel, h: GraphModel, k: usize, memos: Set<usize>) -> bool {
    &&& h.cells.len() == g.cells.len()
    &&& h.pending == g.pending
    &&& no_effects(h, memos)
    &&& forall|e: usize|
        #![trigger h.cells[e as int]]
        e < g.cells.len() && e != k && g.cells[e as int].role == Role::Effect ==> h.cells[e as int].role
            == Role::Effect && h.cells[e as int].dirty == g.cells[e as int].dirty
}

proof fn lemma_quiet_steps(
    g: GraphModel,
    k: usize,
    memos: Set<usize>,
    states: Seq<GraphModel>,
    i: int,
)
    requires
        k < g.cells.len(),
        no_effects(g, memos),
        states.len() > 0,
        states[0] == begun(g, k),
        forall|i: int, j: int|
            0 <= i < states.len() - 1 && j == i + 1 ==> #[trigger] quiet_step(states[i], states[j], memos),
        0 <= i < states.len(),
    ensures
        others_stand(g, states[i], k, memos),
    decreases i,
{
    if i > 0 {
        lemma_quiet_steps(g, k, memos, states, i - 1);
        let a = states[i - 1];
        let b = states[i];
        assert(quiet_step(a, b, memos));
        if a.observers.len() > 0 {
            assert(a.observers[a.observers.len() - 1] < a.cells.len());
        }
        assert forall|m: usize| #[trigger] memos.contains(m) && m < b.cells.len() implies b.cells[m as int].role
            != Role::Effect by {
            assert(a.cells[m as int].role != Role::Effect);
        }
        assert forall|e: usize|
            #![trigger b.cells[e as int]]
            e < g.cells.len() && e != k && g.cells[e as int].role == Role::Effect implies b.cells[e as int].role
            == Role::Effect && b.cells[e as int].dirty == g.cells[e as int].dirty by {
            assert(a.cells[e as int].role == Role::Effect);
            assert(!memos.contains(e));
        }
    }
}

proof fn lemma_one_run(g: GraphModel, h: GraphModel, k: usize, memos: Set<usize>)
    requires
        linked(g),
        one_run(g, h, k, memos),
        g.pending.no_duplicates(),
        no_effects(g, memos),
        forall|i: int|
            0 <= i < g.pending.len() ==> g.cells[#[trigger] g.pending[i] as int].dirty && g.cells[g.pending[i] as int].role
                == Role::Effect,
    ensures
        g.pending.len() > 0,
        k == g.pending.last(),
        h.pending == g.pending.drop_last(),
        h.cells.len() == g.cells.len(),
        no_effects(h, memos),
        forall|i: int|
            0 <= i < h.pending.len() ==> h.cells[#[trigger] h.pending[i] as int].dirty && h.cells[h.pending[i] as int].role
                == Role::Effect,
{
    let (m, states): (GraphModel, Seq<GraphModel>) = choose|m: GraphModel, states: Seq<GraphModel>|
        next_due(g, m, Some(k)) && #[trigger] quiet_run(m, h, k, memos, states);
    let n = m.pending.len() as int;
    if n + 1 < g.pending.len() {
        assert(g.cells[g.pending[n + 1] as int].dirty);
    }
    assert(m.pending =~= g.pending.drop_last());
    assert(g.pending[n] < g.cells.len());
    lemma_quiet_steps(m, k, memos, states, states.len() - 1);
    let last = states.last();
    assert(others_stand(m, last, k, memos));
    assert forall|i: int| 0 <= i < h.pending.len() implies h.cells[#[trigger] h.pending[i] as int].dirty
        && h.cells[h.pending[i] as int].role == Role::Effect by {
        let e = h.pending[i];
        assert(g.pending[i] == e);
        assert(g.pending[i] != g.pending[n]);
        assert(e < g.cells.len());
        assert(last.cells[e as int].role == Role::Effect);
    }
}

pub proof fn lemma_flushed(h: GraphModel, states: Seq<GraphModel>, ks: Seq<usize>, memos: Set<usize>, i: int)
    requires
        flushed(states, ks, memos),
        states[0] == h,
        h.pending.no_duplicates(),
        no_effects(h, memos),
        forall|j: int|
            0 <= j < h.pending.len() ==> h.cells[#[trigger] h.pending[j] as int].dirty && h.cells[h.pending[j] as int].role
                == Role::Effect,
        0 <= i < states.len(),
    ensures
        i <= h.pending.len(),
        states[i].pending == h.pending.take(h.pending.len() - i),
        states[i].cells.len() == h.cells.len(),
        no_effects(states[i], memos),
        forall|j: int|
            0 <= j < states[i].pending.len() ==> states[i].cells[#[trigger] states[i].pending[j] as int].dirty
                && states[i].cells[states[i].pending[j] as int].role == Role::Effect,
        forall|j: int| 0 <= j < i ==> #[trigger] ks[j] == h.pending[h.pending.len() - 1 - j],
    decreases i,
{
    if i == 0 {
        assert(h.pending.take(h.pending.len() as int) =~= h.pending);
    } else {
        lemma_flushed(h, states, ks, memos, i - 1);
        let a = states[i - 1];
        let b = states[i];
        assert(one_run(a, b, ks[i - 1], memos));
        assert(a.pending.no_duplicates()) by {
            assert forall|x: int, y: int| 0 <= x < a.pending.len() && 0 <= y < a.pending.len() && x != y implies a.pending[x]
                != a.pending[y] by {
                assert(h.pending[x] != h.pending[y]);
            }
        }
        lemma_one_run(a, b, ks[i - 1], memos);
        assert(b.pending =~= h.pending.take(h.pending.len() - i));
        assert(ks[i - 1] == h.pending[h.pending.len() - 1 - (i - 1)]);
    }
}

/// A change runs exactly the effects that it reaches, each once: in a graph in which no effect is
/// due, the effects that run after a change of `key` are those that depend on it as their last runs
/// left it, whatever they read in earlier ones. The computations set no signal; the memos are the
/// nodes that may run in between.
pub proof fn law_change_runs_its_effects_once(
    g: GraphModel,
    key: usize,
    states: Seq<GraphModel>,
    ks: Seq<usize>,
    memos: Set<usize>,
)
    requires
        linked(g),
        key < g.cells.len(),
        g.pending.len() == 0,
        no_effects(g, memos),
        states.len() > 0,
        set_off(g, states[0], key),
        flushed(states, ks, memos),
    ensures
        ks.no_duplicates(),
        forall|k: usize| #[trigger]
            ks.contains(k) <==> reached(g, key, k) && g.cells[k as int].role == Role::Effect,
        states.last().pending.len() == 0,
{
    let h = states[0];
    let n = h.pending.len() as int;
    let marked = GraphModel { flushing: g.flushing, ..h };
    assert(changed(g, marked, key));
    assert forall|m: usize| #[trigger] memos.contains(m) && m < h.cells.len() implies h.cells[m as int].role
        != Role::Effect by {
        assert(marked.cells[m as int] == (CellModel {
            dirty: g.cells[m as int].dirty || reached(g, key, m),
            ..g.cells[m as int]
        }));
    }
    assert forall|i: int| 0 <= i < n implies h.cells[#[trigger] h.pending[i] as int].dirty && h.cells[h.pending[i] as int].role
        == Role::Effect && reached(g, key, h.pending[i]) by {
        let k = h.pending[i];
        assert(marked.pending.contains(k));
        assert(!g.pending.contains(k));
        lemma_reached_inside(g, key, k);
        assert(marked.cells[k as int] == (CellModel {
            dirty: g.cells[k as int].dirty || reached(g, key, k),
            ..g.cells[k as int]
        }));
    }
    assert(h.pending.no_duplicates()) by {
        assert forall|x: int, y: int| 0 <= x < n && 0 <= y < n && x != y implies h.pending[x] != h.pending[y] by {
            if x < y {
                assert(marked.pending[y] != marked.pending[x]);
            } else {
                assert(marked.pending[x] != marked.pending[y]);
            }
        }
    }
    let last = ks.len() as int;
    lemma_flushed(h, states, ks, memos, last);
    let end = states.last();
    let done = choose|d: GraphModel| #[trigger] next_due(end, d, None);
    if end.pending.len() > 0 {
        assert(end.cells[end.pending[0] as int].dirty);
    }
    assert(last == n);
    assert forall|k: usize| #[trigger] ks.contains(k) <==> reached(g, key, k) && g.cells[k as int].role
        == Role::Effect by {
        assert(marked.pending.contains(k) <==> reached(g, key, k) && g.cells[k as int].role == Role::Effect);
        if ks.contains(k) {
            let j = choose|j: int| 0 <= j < ks.len() && ks[j] == k;
            assert(h.pending[n - 1 - j] == k);
        }
        if h.pending.contains(k) {
            let j = choose|j: int| 0 <= j < n && h.pending[j] == k;
            assert(ks[n - 1 - j] == h.pending[n - 1 - (n - 1 - j)]);
        }
    }
    assert forall|x: int, y: int| 0 <= x < ks.len() && 0 <= y < ks.len() && x != y implies ks[x] != ks[y] by {
        assert(h.pending[n - 1 - x] != h.pending[n - 1 - y]);
    }
}

} // verus!
