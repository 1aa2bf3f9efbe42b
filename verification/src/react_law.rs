//! What holds of every reactive graph over whole calls: setting a signal, and reading a memo.
use vstd::prelude::*;

use crate::react::{
    begun, changed, ended, flushed, law_change_runs_its_effects_once, linked, next_due, no_effects, no_graph, noted, one_run,
    passes, path, quiet_run, quiet_step, reached, readable, set_off, startable, step_on, CellModel, GraphModel, Role,
};

verus! {

/// The nodes of `p` lie one behind the other downstream of `key`: each read the one before it in
/// its last run, the first of them read `key`.
pub open spec fn chain(g: GraphModel, key: usize, p: Seq<usize>) -> bool {
    &&& p.len() > 0
    &&& g.cells[key as int].subscribers.contains(p[0])
    &&& forall|i: int, j: int|
        0 <= i < p.len() - 1 && j == i + 1 ==> #[trigger] g.cells[p[i] as int].subscribers.contains(#[trigger] p[j])
}

/// The node depends on `key`, by what it and the memos in between read in their last runs.
pub open spec fn depends(g: GraphModel, key: usize, k: usize) -> bool {
    exists|p: Seq<usize>| #[trigger] chain(g, key, p) && p.last() == k
}

/// Whatever read a node that is not good is not good either, and nothing reads an effect.
pub open spec fn tidy(g: GraphModel) -> bool {
    &&& forall|a: int, b: usize|
        0 <= a < g.cells.len() && #[trigger] g.cells[a].subscribers.contains(b) && g.cells[a].dirty
            ==> g.cells[b as int].dirty
    &&& forall|a: int|
        0 <= a < g.cells.len() && (#[trigger] g.cells[a]).role == Role::Effect ==> g.cells[a].subscribers == Set::<
            usize,
        >::empty()
}

/// Nothing runs, nothing is due, and every effect has run since what it read last changed.
pub open spec fn at_rest(g: GraphModel) -> bool {
    &&& linked(g)
    &&& tidy(g)
    &&& g.observers.len() == 0
    &&& g.pending.len() == 0
    &&& !g.flushing
    &&& forall|k: int| 0 <= k < g.cells.len() && (#[trigger] g.cells[k]).role == Role::Effect ==> !g.cells[k].dirty
}

/// The graph goes from `g` to `end` while the signal `key` is set: what the change reaches is
/// marked, and the effects `ks` run one after the other, through the states, until none is due.
pub open spec fn set_call(
    g: GraphModel,
    key: usize,
    states: Seq<GraphModel>,
    ks: Seq<usize>,
    memos: Set<usize>,
    end: GraphModel,
) -> bool {
    &&& states.len() > 0
    &&& set_off(g, states[0], key)
    &&& flushed(states, ks, memos)
    &&& end == (GraphModel { pending: Seq::empty(), flushing: false, ..states.last() })
}

/// A graph without nodes is at rest.
pub proof fn law_new_graph_is_at_rest()
    ensures
        at_rest(no_graph()),
{
}

/// A node depends on another exactly where it read that one in its last run, or read one that
/// depends on it.
pub proof fn law_dependence_is_by_last_runs(g: GraphModel, key: usize, k: usize)
    requires
        linked(g),
        key < g.cells.len(),
        k < g.cells.len(),
    ensures
        depends(g, key, k) <==> (g.cells[k as int].sources.contains(key) || exists|m: usize|
            g.cells[k as int].sources.contains(m) && #[trigger] depends(g, key, m)),
{
    if depends(g, key, k) {
        let p = choose|p: Seq<usize>| #[trigger] chain(g, key, p) && p.last() == k;
        let n = p.len() as int;
        if n == 1 {
            assert(g.cells[key as int].subscribers.contains(k));
        } else {
            let m = p[n - 2];
            lemma_chain_inside(g, key, p, n - 2);
            assert(g.cells[p[n - 2] as int].subscribers.contains(p[n - 1]));
            let q = p.drop_last();
            assert forall|i: int, j: int| 0 <= i < q.len() - 1 && j == i + 1 implies #[trigger] g.cells[q[i] as int].subscribers.contains(
                #[trigger] q[j],
            ) by {
                assert(g.cells[p[i] as int].subscribers.contains(p[j]));
            }
            assert(chain(g, key, q) && q.last() == m);
            assert(depends(g, key, m));
            assert(g.cells[k as int].sources.contains(m));
        }
    }
    if g.cells[k as int].sources.contains(key) {
        let p = seq![k];
        assert(chain(g, key, p) && p.last() == k);
    } else if exists|m: usize| g.cells[k as int].sources.contains(m) && #[trigger] depends(g, key, m) {
        let m = choose|m: usize| g.cells[k as int].sources.contains(m) && #[trigger] depends(g, key, m);
        let q = choose|q: Seq<usize>| #[trigger] chain(g, key, q) && q.last() == m;
        let p = q.push(k);
        assert forall|i: int, j: int| 0 <= i < p.len() - 1 && j == i + 1 implies #[trigger] g.cells[p[i] as int].subscribers.contains(
            #[trigger] p[j],
        ) by {
            if j < q.len() {
                assert(g.cells[q[i] as int].subscribers.contains(q[j]));
            }
        }
        assert(chain(g, key, p) && p.last() == k);
    }
}

proof fn lemma_chain_inside(g: GraphModel, key: usize, p: Seq<usize>, i: int)
    requires
        linked(g),
        key < g.cells.len(),
        chain(g, key, p),
        0 <= i < p.len(),
    ensures
        p[i] < g.cells.len(),
    decreases i,
{
    if i > 0 {
        lemma_chain_inside(g, key, p, i - 1);
        assert(g.cells[p[i - 1] as int].subscribers.contains(p[i]));
    }
}

proof fn lemma_chain_good(g: GraphModel, key: usize, p: Seq<usize>, i: int)
    requires
        linked(g),
        tidy(g),
        key < g.cells.len(),
        chain(g, key, p),
        !g.cells[p.last() as int].dirty,
        0 <= i < p.len(),
    ensures
        !g.cells[p[i] as int].dirty,
    decreases p.len() - i,
{
    if i < p.len() - 1 {
        lemma_chain_good(g, key, p, i + 1);
        lemma_chain_inside(g, key, p, i);
        assert(g.cells[p[i] as int].subscribers.contains(p[i + 1]));
    }
}

/// A change of `key` reaches what depends on it, as long as that is good.
proof fn lemma_reaches_dependents(g: GraphModel, key: usize, k: usize)
    requires
        linked(g),
        tidy(g),
        key < g.cells.len(),
        k < g.cells.len(),
        !g.cells[k as int].dirty,
    ensures
        reached(g, key, k) <==> depends(g, key, k),
{
    if reached(g, key, k) {
        let p = choose|p: Seq<usize>| #[trigger] path(g, key, p) && p.last() == k;
        assert forall|i: int, j: int| 0 <= i < p.len() - 1 && j == i + 1 implies #[trigger] g.cells[p[i] as int].subscribers.contains(
            #[trigger] p[j],
        ) by {
            assert(step_on(g, p[i], p[j]));
        }
        assert(chain(g, key, p));
    }
    if depends(g, key, k) {
        let p = choose|p: Seq<usize>| #[trigger] chain(g, key, p) && p.last() == k;
        assert forall|i: int, j: int| 0 <= i < p.len() - 1 && j == i + 1 implies #[trigger] step_on(g, p[i], p[j]) by {
            lemma_chain_inside(g, key, p, i);
            lemma_chain_good(g, key, p, i);
            assert(g.cells[p[i] as int].subscribers.contains(p[j]));
        }
        assert(path(g, key, p));
    }
}

/// The links of the graph agree after a read.
proof fn lemma_noted_linked(g: GraphModel, source: usize)
    requires
        linked(g),
        source < g.cells.len(),
    ensures
        linked(noted(g, source)),
{
    if g.observers.len() > 0 {
        assert(g.observers[g.observers.len() - 1] < g.cells.len());
    }
}

/// The links of the graph agree as a node starts to run.
proof fn lemma_begun_linked(g: GraphModel, key: usize)
    requires
        linked(g),
        key < g.cells.len(),
    ensures
        linked(begun(g, key)),
{
    let h = begun(g, key);
    assert forall|a: int, b: usize| 0 <= a < h.cells.len() && #[trigger] h.cells[a].sources.contains(b) implies b
        < h.cells.len() && h.cells[b as int].subscribers.contains(a as usize) by {
        assert(g.cells[a].sources.contains(b));
    }
    assert forall|a: int, b: usize| 0 <= a < h.cells.len() && #[trigger] h.cells[a].subscribers.contains(b) implies b
        < h.cells.len() && h.cells[b as int].sources.contains(a as usize) by {
        assert(g.cells[a].subscribers.contains(b));
    }
}

/// The links of the graph agree after a run.
proof fn lemma_ended_linked(g: GraphModel, key: usize, role: Role)
    requires
        linked(g),
        key < g.cells.len(),
    ensures
        linked(ended(g, key, role)),
{
    let h = ended(g, key, role);
    assert forall|a: int, b: usize| 0 <= a < h.cells.len() && #[trigger] h.cells[a].sources.contains(b) implies b
        < h.cells.len() && h.cells[b as int].subscribers.contains(a as usize) by {
        assert(g.cells[a].sources.contains(b));
    }
    assert forall|a: int, b: usize| 0 <= a < h.cells.len() && #[trigger] h.cells[a].subscribers.contains(b) implies b
        < h.cells.len() && h.cells[b as int].sources.contains(a as usize) by {
        assert(g.cells[a].subscribers.contains(b));
    }
}

/// What holds while computations run: each of them is not good yet, and has read what is good.
spec fn running(g: GraphModel) -> bool {
    &&& linked(g)
    &&& tidy(g)
    &&& g.observers.no_duplicates()
    &&& forall|i: int| 0 <= i < g.observers.len() ==> g.cells[#[trigger] g.observers[i] as int].dirty
    &&& forall|i: int, s: usize|
        0 <= i < g.observers.len() && #[trigger] g.cells[g.observers[i] as int].sources.contains(s) ==> !g.cells[s as int].dirty
}

proof fn lemma_read_keeps(a: GraphModel, source: usize)
    requires
        running(a),
        readable(a, source),
    ensures
        running(noted(a, source)),
{
    lemma_noted_linked(a, source);
    let b = noted(a, source);
    if a.observers.len() > 0 {
        let o = a.observers.last();
        assert(a.observers[a.observers.len() - 1] == o);
        assert forall|x: int, y: usize|
            0 <= x < b.cells.len() && #[trigger] b.cells[x].subscribers.contains(y) && b.cells[x].dirty implies b.cells[y as int].dirty by {
            assert(a.cells[x].subscribers.contains(y));
        }
        assert forall|x: int| 0 <= x < b.cells.len() && (#[trigger] b.cells[x]).role == Role::Effect implies b.cells[x].subscribers
            == Set::<usize>::empty() by {
            assert(a.cells[x].role == Role::Effect);
        }
        assert forall|i: int| 0 <= i < b.observers.len() implies b.cells[#[trigger] b.observers[i] as int].dirty by {
            assert(a.cells[a.observers[i] as int].dirty);
        }
        assert forall|i: int, s: usize|
            0 <= i < b.observers.len() && #[trigger] b.cells[b.observers[i] as int].sources.contains(s) implies !b.cells[s as int].dirty by {
            if a.cells[a.observers[i] as int].sources.contains(s) {
                assert(!a.cells[s as int].dirty);
            }
        }
    }
}

proof fn lemma_start_keeps(a: GraphModel, m: usize)
    requires
        running(a),
        m < a.cells.len(),
        a.cells[m as int].dirty,
        !a.observers.contains(m),
    ensures
        running(begun(a, m)),
{
    lemma_begun_linked(a, m);
    let b = begun(a, m);
    assert forall|x: int, y: usize|
        0 <= x < b.cells.len() && #[trigger] b.cells[x].subscribers.contains(y) && b.cells[x].dirty implies b.cells[y as int].dirty by {
        assert(a.cells[x].subscribers.contains(y));
    }
    assert forall|x: int| 0 <= x < b.cells.len() && (#[trigger] b.cells[x]).role == Role::Effect implies b.cells[x].subscribers
        == Set::<usize>::empty() by {
        assert(a.cells[x].role == Role::Effect);
        assert(b.cells[x].subscribers =~= Set::<usize>::empty());
    }
    assert forall|i: int| 0 <= i < b.observers.len() implies b.cells[#[trigger] b.observers[i] as int].dirty by {
        if i < a.observers.len() {
            assert(a.cells[a.observers[i] as int].dirty);
        }
    }
    assert forall|i: int, s: usize|
        0 <= i < b.observers.len() && #[trigger] b.cells[b.observers[i] as int].sources.contains(s) implies !b.cells[s as int].dirty by {
        if i < a.observers.len() {
            assert(a.observers.contains(a.observers[i]));
            assert(a.cells[a.observers[i] as int].sources.contains(s));
        }
    }
    assert(b.observers.no_duplicates()) by {
        assert forall|i: int, j: int| 0 <= i < b.observers.len() && 0 <= j < b.observers.len() && i != j implies b.observers[i]
            != b.observers[j] by {
            if i < a.observers.len() {
                assert(a.observers.contains(a.observers[i]));
            }
            if j < a.observers.len() {
                assert(a.observers.contains(a.observers[j]));
            }
        }
    }
}

proof fn lemma_end_keeps(a: GraphModel, m: usize, role: Role)
    requires
        running(a),
        a.observers.len() > 0,
        m == a.observers.last(),
        role == Role::Effect ==> a.cells[m as int].subscribers == Set::<usize>::empty(),
    ensures
        running(ended(a, m, role)),
{
    let n = a.observers.len() as int;
    assert(a.observers[n - 1] < a.cells.len());
    lemma_ended_linked(a, m, role);
    let b = ended(a, m, role);
    assert forall|x: int, y: usize|
        0 <= x < b.cells.len() && #[trigger] b.cells[x].subscribers.contains(y) && b.cells[x].dirty implies b.cells[y as int].dirty by {
        assert(a.cells[x].subscribers.contains(y));
        if y == m {
            assert(a.cells[a.observers[n - 1] as int].sources.contains(x as usize));
        }
    }
    assert forall|x: int| 0 <= x < b.cells.len() && (#[trigger] b.cells[x]).role == Role::Effect implies b.cells[x].subscribers
        == Set::<usize>::empty() by {
        if x != m {
            assert(a.cells[x].role == Role::Effect);
        }
    }
    assert forall|i: int| 0 <= i < b.observers.len() implies b.cells[#[trigger] b.observers[i] as int].dirty by {
        assert(a.cells[a.observers[i] as int].dirty);
        assert(a.observers[i] != a.observers[n - 1]);
    }
    assert forall|i: int, s: usize|
        0 <= i < b.observers.len() && #[trigger] b.cells[b.observers[i] as int].sources.contains(s) implies !b.cells[s as int].dirty by {
        assert(a.cells[a.observers[i] as int].sources.contains(s));
    }
}

/// In `a` the outermost computation is `k`, nothing reads it, no node has become an effect since `g`
/// and the effects other than `k` are as good as they were.
spec fn stands(g: GraphModel, a: GraphModel, k: usize) -> bool {
    &&& a.cells.len() == g.cells.len()
    &&& a.pending == g.pending
    &&& a.flushing == g.flushing
    &&& a.observers.len() > 0
    &&& a.observers[0] == k
    &&& a.cells[k as int].subscribers == Set::<usize>::empty()
    &&& forall|e: int|
        0 <= e < g.cells.len() && e != k && (#[trigger] a.cells[e]).role == Role::Effect ==> g.cells[e].role == Role::Effect
            && a.cells[e].dirty == g.cells[e].dirty
}

proof fn lemma_run_keeps(g: GraphModel, k: usize, memos: Set<usize>, states: Seq<GraphModel>, i: int)
    requires
        linked(g),
        tidy(g),
        g.observers.len() == 0,
        k < g.cells.len(),
        g.cells[k as int].dirty,
        g.cells[k as int].role == Role::Effect,
        !memos.contains(k),
        states.len() > 0,
        states[0] == begun(g, k),
        forall|i: int, j: int|
            0 <= i < states.len() - 1 && j == i + 1 ==> #[trigger] quiet_step(states[i], states[j], memos),
        0 <= i < states.len(),
    ensures
        running(states[i]),
        stands(g, states[i], k),
    decreases i,
{
    if i == 0 {
        lemma_start_keeps(g, k);
        assert(states[0].cells[k as int].subscribers =~= Set::<usize>::empty());
    } else {
        lemma_run_keeps(g, k, memos, states, i - 1);
        let a = states[i - 1];
        let b = states[i];
        assert(quiet_step(a, b, memos));
        let n = a.observers.len() as int;
        assert(a.observers[n - 1] < a.cells.len());
        assert(a.cells[a.observers[0] as int].dirty);
        if exists|source: usize| readable(a, source) && b == #[trigger] noted(a, source) {
            let source = choose|source: usize| readable(a, source) && b == #[trigger] noted(a, source);
            lemma_read_keeps(a, source);
            assert(stands(g, b, k));
        } else if exists|m: usize| memos.contains(m) && startable(a, m) && b == #[trigger] begun(a, m) {
            let m = choose|m: usize| memos.contains(m) && startable(a, m) && b == #[trigger] begun(a, m);
            lemma_start_keeps(a, m);
            assert(b.cells[k as int].subscribers =~= Set::<usize>::empty());
            assert(stands(g, b, k));
        } else {
            let m = choose|m: usize|
                memos.contains(m) && a.observers.len() > 0 && m == a.observers.last() && b == #[trigger] ended(
                    a,
                    m,
                    Role::Memo,
                );
            lemma_end_keeps(a, m, Role::Memo);
            assert(stands(g, b, k));
        }
    }
}

/// What holds between the runs of a flush: nothing runs, and every effect that is not good is due.
spec fn between_runs(g: GraphModel, memos: Set<usize>) -> bool {
    &&& linked(g)
    &&& tidy(g)
    &&& g.observers.len() == 0
    &&& forall|k: int|
        0 <= k < g.cells.len() && (#[trigger] g.cells[k]).role == Role::Effect && g.cells[k].dirty ==> g.pending.contains(
            k as usize,
        )
    &&& forall|i: int|
        0 <= i < g.pending.len() ==> g.cells[#[trigger] g.pending[i] as int].role == Role::Effect && !memos.contains(
            g.pending[i],
        )
}

proof fn lemma_run_ends_between(g: GraphModel, h: GraphModel, k: usize, memos: Set<usize>)
    requires
        between_runs(g, memos),
        one_run(g, h, k, memos),
        h.pending.len() < g.pending.len(),
        h.pending == g.pending.drop_last(),
        forall|i: int| 0 <= i < h.pending.len() ==> h.cells[#[trigger] h.pending[i] as int].role == Role::Effect,
    ensures
        between_runs(h, memos),
        h.cells.len() == g.cells.len(),
{
    let (m, states): (GraphModel, Seq<GraphModel>) = choose|m: GraphModel, states: Seq<GraphModel>|
        next_due(g, m, Some(k)) && #[trigger] quiet_run(m, h, k, memos, states);
    let last = states.last();
    let n = m.pending.len() as int;
    assert(k == g.pending[n]);
    assert(g.pending[n] < g.cells.len());
    assert(linked(m)) by {
        assert forall|i: int| 0 <= i < m.pending.len() implies #[trigger] m.pending[i] < m.cells.len() by {
            assert(m.pending[i] == g.pending[i]);
        }
    }
    assert(tidy(m));
    lemma_run_keeps(m, k, memos, states, states.len() - 1);
    assert(last.observers =~= seq![k]);
    lemma_end_keeps(last, k, Role::Effect);
    assert(h.pending == m.pending);
    assert forall|e: int| 0 <= e < h.cells.len() && (#[trigger] h.cells[e]).role == Role::Effect && h.cells[e].dirty implies h.pending.contains(
        e as usize,
    ) by {
        assert(e != k);
        assert(last.cells[e].role == Role::Effect);
        assert(m.cells[e].role == Role::Effect && m.cells[e].dirty);
        assert(g.cells[e].role == Role::Effect && g.cells[e].dirty);
        assert(g.pending.contains(e as usize));
        let j = choose|j: int| 0 <= j < g.pending.len() && g.pending[j] == e as usize;
        assert(j != g.pending.len() - 1) by {
            assert(n == g.pending.len() - 1);
        }
        assert(h.pending[j] == e as usize);
    }
    assert forall|i: int| 0 <= i < h.pending.len() implies h.cells[#[trigger] h.pending[i] as int].role == Role::Effect
        && !memos.contains(h.pending[i]) by {
        assert(g.pending[i] == h.pending[i]);
    }
}

proof fn lemma_flush_keeps(h: GraphModel, states: Seq<GraphModel>, ks: Seq<usize>, memos: Set<usize>, i: int)
    requires
        flushed(states, ks, memos),
        states[0] == h,
        h.pending.no_duplicates(),
        no_effects(h, memos),
        between_runs(h, memos),
        forall|j: int| 0 <= j < h.pending.len() ==> h.cells[#[trigger] h.pending[j] as int].dirty,
        0 <= i < states.len(),
    ensures
        between_runs(states[i], memos),
        states[i].cells.len() == h.cells.len(),
    decreases i,
{
    if i > 0 {
        lemma_flush_keeps(h, states, ks, memos, i - 1);
        crate::react::lemma_flushed(h, states, ks, memos, i - 1);
        crate::react::lemma_flushed(h, states, ks, memos, i);
        assert(one_run(states[i - 1], states[i], ks[i - 1], memos));
        assert(states[i].pending =~= states[i - 1].pending.drop_last());
        lemma_run_ends_between(states[i - 1], states[i], ks[i - 1], memos);
    }
}

/// Marking what a change reaches leaves whatever read a node that is not good not good.
proof fn lemma_marked_tidy(g: GraphModel, h: GraphModel, key: usize)
    requires
        linked(g),
        tidy(g),
        key < g.cells.len(),
        changed(g, h, key),
    ensures
        linked(h),
        tidy(h),
{
    assert forall|k: int| 0 <= k < g.cells.len() implies #[trigger] h.cells[k] == (CellModel {
        dirty: g.cells[k].dirty || reached(g, key, k as usize),
        ..g.cells[k]
    }) by {
        assert(h.cells[(k as usize) as int] == (CellModel {
            dirty: g.cells[k].dirty || reached(g, key, k as usize),
            ..g.cells[k]
        }));
    }
    assert forall|a: int, b: usize| 0 <= a < h.cells.len() && #[trigger] h.cells[a].sources.contains(b) implies b
        < h.cells.len() && h.cells[b as int].subscribers.contains(a as usize) by {
        assert(g.cells[a].sources.contains(b));
    }
    assert forall|a: int, b: usize| 0 <= a < h.cells.len() && #[trigger] h.cells[a].subscribers.contains(b) implies b
        < h.cells.len() && h.cells[b as int].sources.contains(a as usize) by {
        assert(g.cells[a].subscribers.contains(b));
    }
    assert forall|i: int| 0 <= i < h.pending.len() implies #[trigger] h.pending[i] < h.cells.len() by {
        let k = h.pending[i];
        assert(h.pending.contains(k));
        if g.pending.contains(k) {
            let j = choose|j: int| 0 <= j < g.pending.len() && g.pending[j] == k;
            assert(g.pending[j] < g.cells.len());
        } else {
            crate::react::lemma_reached_inside(g, key, k);
        }
    }
    assert forall|a: int, b: usize|
        0 <= a < h.cells.len() && #[trigger] h.cells[a].subscribers.contains(b) && h.cells[a].dirty implies h.cells[b as int].dirty by {
        assert(g.cells[a].subscribers.contains(b));
        if !g.cells[a].dirty {
            let k = a as usize;
            let p = choose|p: Seq<usize>| #[trigger] path(g, key, p) && p.last() == k;
            let q = p.push(b);
            assert forall|i: int, j: int| 0 <= i < q.len() - 1 && j == i + 1 implies #[trigger] step_on(g, q[i], q[j]) by {
                if j < p.len() {
                    assert(step_on(g, p[i], p[j]));
                } else {
                    assert(q[i] == k);
                    assert(passes(g, k)) by {
                        if g.cells[a].role == Role::Effect {
                            assert(g.cells[a].subscribers == Set::<usize>::empty());
                        }
                    }
                }
            }
            assert(path(g, key, q) && q.last() == b);
            assert(reached(g, key, b));
        }
    }
    assert forall|a: int| 0 <= a < h.cells.len() && (#[trigger] h.cells[a]).role == Role::Effect implies h.cells[a].subscribers
        == Set::<usize>::empty() by {
        assert(g.cells[a].role == Role::Effect);
    }
}

/// Setting a signal runs every effect that depends on it, directly or through any chain of memos, by
/// what they read in their last runs, each once, and no other; and the graph is at rest again when
/// that is done. The computations set no signal; the memos are the nodes that may run in between.
pub proof fn law_set_runs_what_depends_on_it(
    g: GraphModel,
    key: usize,
    states: Seq<GraphModel>,
    ks: Seq<usize>,
    memos: Set<usize>,
    end: GraphModel,
)
    requires
        at_rest(g),
        key < g.cells.len(),
        no_effects(g, memos),
        set_call(g, key, states, ks, memos, end),
    ensures
        ks.no_duplicates(),
        forall|k: usize|
            k < g.cells.len() ==> (#[trigger] ks.contains(k) <==> g.cells[k as int].role == Role::Effect && depends(
                g,
                key,
                k,
            )),
        forall|k: usize| #[trigger] ks.contains(k) ==> k < g.cells.len(),
        at_rest(end),
        end.cells.len() == g.cells.len(),
{
    law_change_runs_its_effects_once(g, key, states, ks, memos);
    assert forall|k: usize| k < g.cells.len() implies (#[trigger] ks.contains(k) <==> g.cells[k as int].role == Role::Effect
        && depends(g, key, k)) by {
        if g.cells[k as int].role == Role::Effect {
            lemma_reaches_dependents(g, key, k);
        }
    }
    assert forall|k: usize| #[trigger] ks.contains(k) implies k < g.cells.len() by {
        crate::react::lemma_reached_inside(g, key, k);
    }
    let h = states[0];
    let marked = GraphModel { flushing: g.flushing, ..h };
    lemma_marked_tidy(g, marked, key);
    assert(linked(h) && tidy(h));
    assert forall|k: int| 0 <= k < g.cells.len() implies #[trigger] h.cells[k] == (CellModel {
        dirty: g.cells[k].dirty || reached(g, key, k as usize),
        ..g.cells[k]
    }) by {
        assert(marked.cells[(k as usize) as int] == (CellModel {
            dirty: g.cells[k].dirty || reached(g, key, k as usize),
            ..g.cells[k]
        }));
    }
    assert forall|i: int| 0 <= i < h.pending.len() implies h.cells[#[trigger] h.pending[i] as int].dirty
        && h.cells[h.pending[i] as int].role == Role::Effect && !memos.contains(h.pending[i]) by {
        let k = h.pending[i];
        assert(marked.pending.contains(k));
        crate::react::lemma_reached_inside(g, key, k);
    }
    assert forall|k: int| 0 <= k < h.cells.len() && (#[trigger] h.cells[k]).role == Role::Effect && h.cells[k].dirty implies h.pending.contains(
        k as usize,
    ) by {
        assert(!g.cells[k].dirty);
        assert(reached(g, key, k as usize));
        assert(marked.pending.contains(k as usize));
    }
    assert(no_effects(h, memos)) by {
        assert forall|m: usize| #[trigger] memos.contains(m) && m < h.cells.len() implies h.cells[m as int].role != Role::Effect by {
            assert(g.cells[m as int].role != Role::Effect);
        }
    }
    assert(h.pending.no_duplicates()) by {
        let n = h.pending.len() as int;
        assert forall|x: int, y: int| 0 <= x < n && 0 <= y < n && x != y implies h.pending[x] != h.pending[y] by {
            if x < y {
                assert(marked.pending[y] != marked.pending[x]);
            } else {
                assert(marked.pending[x] != marked.pending[y]);
            }
        }
    }
    assert(between_runs(h, memos));
    lemma_flush_keeps(h, states, ks, memos, states.len() - 1);
    let last = states.last();
    assert(last.pending.len() == 0);
    assert forall|k: int| 0 <= k < end.cells.len() && (#[trigger] end.cells[k]).role == Role::Effect implies !end.cells[k].dirty by {
        assert(last.cells[k].role == Role::Effect);
    }
}

/// The graph with one more node, as [`crate::react::Graph::add_node`] leaves it.
pub open spec fn grown(g: GraphModel, role: Role) -> GraphModel {
    GraphModel {
        cells: g.cells.push(
            CellModel {
                role,
                dirty: role != Role::Signal,
                sources: Set::empty(),
                subscribers: Set::empty(),
            },
        ),
        ..g
    }
}

proof fn lemma_grown(g: GraphModel, role: Role)
    requires
        linked(g),
        tidy(g),
        g.cells.len() < usize::MAX,
    ensures
        linked(grown(g, role)),
        tidy(grown(g, role)),
{
    let h = grown(g, role);
    assert forall|a: int, b: usize| 0 <= a < h.cells.len() && #[trigger] h.cells[a].sources.contains(b) implies b
        < h.cells.len() && h.cells[b as int].subscribers.contains(a as usize) by {
        assert(g.cells[a].sources.contains(b));
    }
    assert forall|a: int, b: usize| 0 <= a < h.cells.len() && #[trigger] h.cells[a].subscribers.contains(b) implies b
        < h.cells.len() && h.cells[b as int].sources.contains(a as usize) by {
        assert(g.cells[a].subscribers.contains(b));
    }
    assert forall|a: int, b: usize|
        0 <= a < h.cells.len() && #[trigger] h.cells[a].subscribers.contains(b) && h.cells[a].dirty implies h.cells[b as int].dirty by {
        assert(g.cells[a].subscribers.contains(b));
    }
    assert forall|a: int| 0 <= a < h.cells.len() && (#[trigger] h.cells[a]).role == Role::Effect implies h.cells[a].subscribers
        == Set::<usize>::empty() by {
        if a < g.cells.len() {
            assert(g.cells[a].role == Role::Effect);
        }
    }
}

/// A new signal or memo leaves the graph at rest.
pub proof fn law_new_values_keep_rest(g: GraphModel, role: Role)
    requires
        at_rest(g),
        g.cells.len() < usize::MAX,
        role != Role::Effect,
    ensures
        at_rest(grown(g, role)),
{
    lemma_grown(g, role);
    let h = grown(g, role);
    assert forall|k: int| 0 <= k < h.cells.len() && (#[trigger] h.cells[k]).role == Role::Effect implies !h.cells[k].dirty by {
        assert(g.cells[k].role == Role::Effect);
    }
}

/// A new effect that has run once leaves the graph at rest.
pub proof fn law_new_effect_keeps_rest(g: GraphModel, h: GraphModel, memos: Set<usize>, states: Seq<GraphModel>)
    requires
        at_rest(g),
        g.cells.len() < usize::MAX,
        !memos.contains(g.cells.len() as usize),
        quiet_run(grown(g, Role::Effect), h, g.cells.len() as usize, memos, states),
    ensures
        at_rest(h),
{
    let a = grown(g, Role::Effect);
    let k = g.cells.len() as usize;
    lemma_grown(g, Role::Effect);
    lemma_run_keeps(a, k, memos, states, states.len() - 1);
    let last = states.last();
    assert(last.observers =~= seq![k]);
    lemma_end_keeps(last, k, Role::Effect);
    assert forall|e: int| 0 <= e < h.cells.len() && (#[trigger] h.cells[e]).role == Role::Effect implies !h.cells[e].dirty by {
        if e != k {
            assert(last.cells[e].role == Role::Effect);
            assert(a.cells[e].role == Role::Effect);
            assert(g.cells[e].role == Role::Effect);
        }
    }
}

proof fn lemma_reads_keep(g: GraphModel, memos: Set<usize>, states: Seq<GraphModel>, i: int)
    requires
        at_rest(g),
        states.len() > 0,
        states[0] == g,
        forall|i: int, j: int|
            0 <= i < states.len() - 1 && j == i + 1 ==> #[trigger] quiet_step(states[i], states[j], memos),
        0 <= i < states.len(),
    ensures
        running(states[i]),
        states[i].cells.len() == g.cells.len(),
        states[i].pending == g.pending,
        states[i].flushing == g.flushing,
        forall|e: int| 0 <= e < g.cells.len() && (#[trigger] states[i].cells[e]).role == Role::Effect ==> !states[i].cells[e].dirty,
    decreases i,
{
    if i > 0 {
        lemma_reads_keep(g, memos, states, i - 1);
        let a = states[i - 1];
        let b = states[i];
        assert(quiet_step(a, b, memos));
        if a.observers.len() > 0 {
            assert(a.observers[a.observers.len() - 1] < a.cells.len());
        }
        if exists|source: usize| readable(a, source) && b == #[trigger] noted(a, source) {
            let source = choose|source: usize| readable(a, source) && b == #[trigger] noted(a, source);
            lemma_read_keeps(a, source);
        } else if exists|m: usize| memos.contains(m) && startable(a, m) && b == #[trigger] begun(a, m) {
            let m = choose|m: usize| memos.contains(m) && startable(a, m) && b == #[trigger] begun(a, m);
            lemma_start_keeps(a, m);
        } else {
            let m = choose|m: usize|
                memos.contains(m) && a.observers.len() > 0 && m == a.observers.last() && b == #[trigger] ended(
                    a,
                    m,
                    Role::Memo,
                );
            lemma_end_keeps(a, m, Role::Memo);
        }
        assert forall|e: int| 0 <= e < g.cells.len() && (#[trigger] b.cells[e]).role == Role::Effect implies !b.cells[e].dirty by {
            assert(a.cells[e].role == Role::Effect);
        }
    }
}

/// Reading values, memos that must run first among them, leaves the graph at rest.
pub proof fn law_reads_keep_rest(g: GraphModel, memos: Set<usize>, states: Seq<GraphModel>)
    requires
        at_rest(g),
        states.len() > 0,
        states[0] == g,
        forall|i: int, j: int|
            0 <= i < states.len() - 1 && j == i + 1 ==> #[trigger] quiet_step(states[i], states[j], memos),
        states.last().observers.len() == 0,
    ensures
        at_rest(states.last()),
{
    lemma_reads_keep(g, memos, states, states.len() - 1);
}

} // verus!
