//! What the stream of `diff` does: applied to the old tree it gives the new one.
use vstd::prelude::*;

use crate::coherence::{above, ancestor, coherent, holds, on_cycle, IrDefect};
use crate::coherence_law::children_distinct;
use crate::diff::{
    adds, baseline, binding_drops, binding_sets, callback_drops, callback_sets, child_adds, child_drops,
    content_delta, creations, deltas, diff_model, keeps_binding, keeps_callback, keeps_prop,
    prop_drops, prop_sets, removals, root_delta,
};
use crate::ir::{finite_tree, law_documents_are_finite, step, with_child, with_node, Document, MutationModel, Tree};
use crate::node::{ascending, bare_node, finite_node, lemma_sorted_ids, sorted_ids, NodeId, NodeModel};
use crate::text::{before, in_order, increasing};
use crate::value::{action_same, value_same, ActionModel, ValueModel};

verus! {

/// The tree after a stream of mutations, if every one of them is accepted.
pub open spec fn run(t: Tree, ms: Seq<MutationModel>) -> Option<Tree>
    decreases ms.len(),
{
    if ms.len() == 0 {
        Some(t)
    } else {
        match run(t, ms.drop_last()) {
            None => None,
            Some(u) => match step(u, ms.last()) {
                Ok(v) => Some(v),
                Err(_) => None,
            },
        }
    }
}

proof fn lemma_run_push(t: Tree, ms: Seq<MutationModel>, m: MutationModel)
    ensures
        run(t, ms.push(m)) == (match run(t, ms) {
            None => None::<Tree>,
            Some(u) => match step(u, m) {
                Ok(v) => Some(v),
                Err(_) => None,
            },
        }),
{
    assert(ms.push(m).drop_last() =~= ms);
}

proof fn lemma_run_concat(t: Tree, a: Seq<MutationModel>, b: Seq<MutationModel>)
    requires
        run(t, a) is Some,
    ensures
        run(t, a + b) == run(run(t, a)->0, b),
    decreases b.len(),
{
    if b.len() == 0 {
        assert(a + b =~= a);
    } else {
        lemma_run_concat(t, a, b.drop_last());
        assert((a + b).drop_last() =~= a + b.drop_last());
    }
}

spec fn insert_text(s: Seq<Seq<char>>, a: Seq<char>) -> Seq<Seq<char>>
    decreases s.len(),
{
    if s.len() == 0 || before(s.last(), a) {
        s.push(a)
    } else {
        insert_text(s.drop_last(), a).push(s.last())
    }
}

proof fn lemma_insert_text(s: Seq<Seq<char>>, a: Seq<char>)
    requires
        increasing(s),
        !s.contains(a),
    ensures
        increasing(insert_text(s, a)),
        forall|x: Seq<char>| #[trigger] insert_text(s, a).contains(x) <==> (s.contains(x) || x == a),
    decreases s.len(),
{
    let r = insert_text(s, a);
    if s.len() == 0 || before(s.last(), a) {
        assert forall|i: int, j: int| 0 <= i < j < r.len() implies before(#[trigger] r[i], #[trigger] r[j]) by {
            if j == s.len() && i < s.len() - 1 {
                assert(before(s[i], s[s.len() - 1]));
                crate::text::lemma_before_transitive(s[i], s.last(), a);
            }
        }
        assert forall|x: Seq<char>| #[trigger] r.contains(x) <==> (s.contains(x) || x == a) by {
            assert(r[s.len() as int] == a);
            if s.contains(x) {
                let k = choose|k: int| 0 <= k < s.len() && s[k] == x;
                assert(r[k] == x);
            }
        }
    } else {
        let d = s.drop_last();
        assert(!d.contains(a)) by {
            if d.contains(a) {
                let k = choose|k: int| 0 <= k < d.len() && d[k] == a;
                assert(s[k] == a);
            }
        }
        lemma_insert_text(d, a);
        let q = insert_text(d, a);
        crate::text::lemma_before_total(s.last(), a);
        assert(s.contains(s.last())) by {
            assert(s[s.len() - 1] == s.last());
        }
        assert(before(a, s.last()));
        assert forall|i: int, j: int| 0 <= i < j < r.len() implies before(#[trigger] r[i], #[trigger] r[j]) by {
            if j == q.len() {
                assert(q.contains(q[i]));
                if q[i] != a {
                    assert(d.contains(q[i]));
                    let k = choose|k: int| 0 <= k < d.len() && d[k] == q[i];
                    assert(before(s[k], s[s.len() - 1]));
                }
            } else {
                assert(before(q[i], q[j]));
            }
        }
        assert forall|x: Seq<char>| #[trigger] r.contains(x) <==> (s.contains(x) || x == a) by {
            assert(r[q.len() as int] == s.last());
            if q.contains(x) {
                let k = choose|k: int| 0 <= k < q.len() && q[k] == x;
                assert(r[k] == x);
            }
            if r.contains(x) {
                let k = choose|k: int| 0 <= k < r.len() && r[k] == x;
                if k < q.len() {
                    assert(q[k] == x);
                    assert(q.contains(x));
                    if x != a {
                        let l = choose|l: int| 0 <= l < d.len() && d[l] == x;
                        assert(s[l] == x);
                    }
                } else {
                    assert(s[s.len() - 1] == x);
                }
            }
            if s.contains(x) {
                let k = choose|k: int| 0 <= k < s.len() && s[k] == x;
                if k < d.len() {
                    assert(d[k] == x);
                    assert(q.contains(x));
                }
            }
            if x == a {
                assert(q.contains(x));
            }
        }
    }
}

/// A finite set of texts can be put in order.
pub proof fn lemma_in_order_exists(keys: Set<Seq<char>>)
    requires
        keys.finite(),
    ensures
        increasing(in_order(keys)),
        in_order(keys).to_set() == keys,
    decreases keys.len(),
{
    if keys.len() == 0 {
        let s = Seq::<Seq<char>>::empty();
        assert(s.to_set() =~= keys);
        assert(increasing(s));
        crate::text::lemma_in_order(s);
    } else {
        let a = keys.choose();
        let rest = keys.remove(a);
        lemma_in_order_exists(rest);
        let s = in_order(rest);
        assert(!s.contains(a)) by {
            assert(s.to_set().contains(a) == rest.contains(a));
        }
        lemma_insert_text(s, a);
        let r = insert_text(s, a);
        assert forall|x: Seq<char>| r.to_set().contains(x) <==> keys.contains(x) by {
            assert(s.to_set().contains(x) == rest.contains(x));
            assert(r.contains(x) <==> (s.contains(x) || x == a));
        }
        assert(r.to_set() =~= keys);
        crate::text::lemma_in_order(r);
    }
}

spec fn insert_id(s: Seq<NodeId>, a: NodeId) -> Seq<NodeId>
    decreases s.len(),
{
    if s.len() == 0 || s.last().0 < a.0 {
        s.push(a)
    } else {
        insert_id(s.drop_last(), a).push(s.last())
    }
}

proof fn lemma_insert_id(s: Seq<NodeId>, a: NodeId)
    requires
        ascending(s),
        !s.contains(a),
    ensures
        ascending(insert_id(s, a)),
        forall|x: NodeId| #[trigger] insert_id(s, a).contains(x) <==> (s.contains(x) || x == a),
    decreases s.len(),
{
    let r = insert_id(s, a);
    if s.len() == 0 || s.last().0 < a.0 {
        assert forall|x: NodeId| #[trigger] r.contains(x) <==> (s.contains(x) || x == a) by {
            assert(r[s.len() as int] == a);
            if s.contains(x) {
                let k = choose|k: int| 0 <= k < s.len() && s[k] == x;
                assert(r[k] == x);
            }
        }
    } else {
        let d = s.drop_last();
        assert(!d.contains(a)) by {
            if d.contains(a) {
                let k = choose|k: int| 0 <= k < d.len() && d[k] == a;
                assert(s[k] == a);
            }
        }
        lemma_insert_id(d, a);
        let q = insert_id(d, a);
        assert(s.contains(s.last())) by {
            assert(s[s.len() - 1] == s.last());
        }
        assert(a.0 < s.last().0);
        assert forall|i: int, j: int| 0 <= i < j < r.len() implies (#[trigger] r[i]).0 < (#[trigger] r[j]).0 by {
            if j == q.len() {
                assert(q.contains(q[i]));
                if q[i] != a {
                    assert(d.contains(q[i]));
                    let k = choose|k: int| 0 <= k < d.len() && d[k] == q[i];
                    assert(s[k].0 < s[s.len() - 1].0);
                }
            } else {
                assert(q[i].0 < q[j].0);
            }
        }
        assert forall|x: NodeId| #[trigger] r.contains(x) <==> (s.contains(x) || x == a) by {
            assert(r[q.len() as int] == s.last());
            if q.contains(x) {
                let k = choose|k: int| 0 <= k < q.len() && q[k] == x;
                assert(r[k] == x);
            }
            if r.contains(x) {
                let k = choose|k: int| 0 <= k < r.len() && r[k] == x;
                if k < q.len() {
                    assert(q[k] == x);
                    assert(q.contains(x));
                    if x != a {
                        let l = choose|l: int| 0 <= l < d.len() && d[l] == x;
                        assert(s[l] == x);
                    }
                } else {
                    assert(s[s.len() - 1] == x);
                }
            }
            if s.contains(x) {
                let k = choose|k: int| 0 <= k < s.len() && s[k] == x;
                if k < d.len() {
                    assert(d[k] == x);
                    assert(q.contains(x));
                }
            }
            if x == a {
                assert(q.contains(x));
            }
        }
    }
}

/// A finite set of ids can be put in order.
pub proof fn lemma_sorted_ids_exists(ids: Set<NodeId>)
    requires
        ids.finite(),
    ensures
        ascending(sorted_ids(ids)),
        sorted_ids(ids).to_set() == ids,
    decreases ids.len(),
{
    if ids.len() == 0 {
        let s = Seq::<NodeId>::empty();
        assert(s.to_set() =~= ids);
        lemma_sorted_ids(s);
    } else {
        let a = ids.choose();
        let rest = ids.remove(a);
        lemma_sorted_ids_exists(rest);
        let s = sorted_ids(rest);
        assert(!s.contains(a)) by {
            assert(s.to_set().contains(a) == rest.contains(a));
        }
        lemma_insert_id(s, a);
        let r = insert_id(s, a);
        assert forall|x: NodeId| r.to_set().contains(x) <==> ids.contains(x) by {
            assert(s.to_set().contains(x) == rest.contains(x));
            assert(r.contains(x) <==> (s.contains(x) || x == a));
        }
        assert(r.to_set() =~= ids);
        lemma_sorted_ids(r);
    }
}

/// The entries of `nn`, keeping what `on` had where `keep` says so.
pub open spec fn merged<V>(
    on: Map<Seq<char>, V>,
    nn: Map<Seq<char>, V>,
    keep: spec_fn(Seq<char>) -> bool,
) -> Map<Seq<char>, V> {
    Map::new(
        |k: Seq<char>| nn.dom().contains(k),
        |k: Seq<char>|
            if keep(k) {
                on[k]
            } else {
                nn[k]
            },
    )
}

spec fn map_sets<V>(
    on: Map<Seq<char>, V>,
    nn: Map<Seq<char>, V>,
    keep: spec_fn(Seq<char>) -> bool,
    i: int,
) -> Map<Seq<char>, V>
    decreases i,
{
    if i <= 0 {
        on
    } else {
        let k = in_order(nn.dom())[i - 1];
        let rest = map_sets(on, nn, keep, i - 1);
        if keep(k) {
            rest
        } else {
            rest.insert(k, nn[k])
        }
    }
}

spec fn map_drops<V>(
    on: Map<Seq<char>, V>,
    nn: Map<Seq<char>, V>,
    start: Map<Seq<char>, V>,
    i: int,
) -> Map<Seq<char>, V>
    decreases i,
{
    if i <= 0 {
        start
    } else {
        let k = in_order(on.dom())[i - 1];
        let rest = map_drops(on, nn, start, i - 1);
        if nn.dom().contains(k) {
            rest
        } else {
            rest.remove(k)
        }
    }
}

proof fn lemma_map_sets<V>(
    on: Map<Seq<char>, V>,
    nn: Map<Seq<char>, V>,
    keep: spec_fn(Seq<char>) -> bool,
    i: int,
    k: Seq<char>,
)
    requires
        0 <= i <= in_order(nn.dom()).len(),
        keep(k) ==> on.dom().contains(k),
    ensures
        ({
            let m = map_sets(on, nn, keep, i);
            let seen = in_order(nn.dom()).take(i).contains(k);
            &&& m.dom().contains(k) <==> (on.dom().contains(k) || seen)
            &&& m.dom().contains(k) ==> m[k] == (if seen && !keep(k) {
                nn[k]
            } else {
                on[k]
            })
        }),
    decreases i,
{
    let ks = in_order(nn.dom());
    if i > 0 {
        lemma_map_sets(on, nn, keep, i - 1, k);
        lemma_take_contains(ks, i, k);
    } else {
        assert(!ks.take(0).contains(k));
    }
}

proof fn lemma_take_contains(ks: Seq<Seq<char>>, i: int, k: Seq<char>)
    requires
        0 < i <= ks.len(),
    ensures
        ks.take(i).contains(k) <==> (ks.take(i - 1).contains(k) || k == ks[i - 1]),
{
    let longer = ks.take(i);
    let shorter = ks.take(i - 1);
    if shorter.contains(k) {
        let m = choose|m: int| 0 <= m < shorter.len() && shorter[m] == k;
        assert(longer[m] == k);
    }
    if longer.contains(k) {
        let m = choose|m: int| 0 <= m < longer.len() && longer[m] == k;
        if m < i - 1 {
            assert(shorter[m] == k);
        }
    }
    assert(longer[i - 1] == ks[i - 1]);
}

proof fn lemma_map_drops<V>(
    on: Map<Seq<char>, V>,
    nn: Map<Seq<char>, V>,
    start: Map<Seq<char>, V>,
    i: int,
    k: Seq<char>,
)
    requires
        0 <= i <= in_order(on.dom()).len(),
    ensures
        ({
            let m = map_drops(on, nn, start, i);
            let seen = in_order(on.dom()).take(i).contains(k);
            &&& m.dom().contains(k) <==> (start.dom().contains(k) && !(seen && !nn.dom().contains(k)))
            &&& m.dom().contains(k) ==> m[k] == start[k]
        }),
    decreases i,
{
    let ks = in_order(on.dom());
    if i > 0 {
        lemma_map_drops(on, nn, start, i - 1, k);
        lemma_take_contains(ks, i, k);
    } else {
        assert(!ks.take(0).contains(k));
    }
}

proof fn lemma_map_merged<V>(
    on: Map<Seq<char>, V>,
    nn: Map<Seq<char>, V>,
    keep: spec_fn(Seq<char>) -> bool,
)
    requires
        on.dom().finite(),
        nn.dom().finite(),
        forall|k: Seq<char>| #[trigger] keep(k) ==> on.dom().contains(k),
    ensures
        map_drops(
            on,
            nn,
            map_sets(on, nn, keep, in_order(nn.dom()).len() as int),
            in_order(on.dom()).len() as int,
        ) == merged(on, nn, keep),
{
    lemma_in_order_exists(on.dom());
    lemma_in_order_exists(nn.dom());
    let a = in_order(nn.dom());
    let b = in_order(on.dom());
    let mid = map_sets(on, nn, keep, a.len() as int);
    let end = map_drops(on, nn, mid, b.len() as int);
    assert(a.take(a.len() as int) =~= a);
    assert(b.take(b.len() as int) =~= b);
    assert forall|k: Seq<char>|
        #![trigger end.dom().contains(k)]
        #![trigger nn.dom().contains(k)]
        (end.dom().contains(k) <==> nn.dom().contains(k)) && (nn.dom().contains(k) ==> end[k] == merged(
            on,
            nn,
            keep,
        )[k]) by {
        lemma_map_sets(on, nn, keep, a.len() as int, k);
        lemma_map_drops(on, nn, mid, b.len() as int, k);
        assert(a.to_set().contains(k) == nn.dom().contains(k));
        assert(b.to_set().contains(k) == on.dom().contains(k));
    }
    assert(end =~= merged(on, nn, keep));
}

/// What keeps its old value among the properties.
pub open spec fn prop_keep(on: NodeModel, nn: NodeModel) -> spec_fn(Seq<char>) -> bool {
    |k: Seq<char>| keeps_prop(on, k, nn.props[k])
}

/// What keeps its old action among the callbacks.
pub open spec fn callback_keep(on: NodeModel, nn: NodeModel) -> spec_fn(Seq<char>) -> bool {
    |k: Seq<char>| keeps_callback(on, k, nn.callbacks[k])
}

/// What keeps its old expression among the bindings.
pub open spec fn binding_keep(on: NodeModel, nn: NodeModel) -> spec_fn(Seq<char>) -> bool {
    |k: Seq<char>| keeps_binding(on, k, nn.bindings[k])
}

proof fn lemma_run_props(u: Tree, id: NodeId, on: NodeModel, nn: NodeModel, i: int, j: int)
    requires
        u.nodes.dom().contains(id),
        u.nodes[id].props == on.props,
        0 <= i,
        0 <= j,
    ensures
        run(u, prop_sets(id, on, nn, i)) == Some(
            with_node(
                u,
                id,
                NodeModel { props: map_sets(on.props, nn.props, prop_keep(on, nn), i), ..u.nodes[id] },
            ),
        ),
        run(u, prop_sets(id, on, nn, i) + prop_drops(id, on, nn, j)) == Some(
            with_node(
                u,
                id,
                NodeModel {
                    props: map_drops(
                        on.props,
                        nn.props,
                        map_sets(on.props, nn.props, prop_keep(on, nn), i),
                        j,
                    ),
                    ..u.nodes[id]
                },
            ),
        ),
    decreases i + j,
{
    let sets = prop_sets(id, on, nn, i);
    if j == 0 {
        if i == 0 {
            assert(with_node(u, id, NodeModel { props: on.props, ..u.nodes[id] }) =~= u) by {
                assert(NodeModel { props: on.props, ..u.nodes[id] } =~= u.nodes[id]);
                assert(u.nodes.insert(id, u.nodes[id]) =~= u.nodes);
            }
        } else {
            lemma_run_props(u, id, on, nn, i - 1, 0);
            let k = in_order(nn.props.dom())[i - 1];
            let rest = prop_sets(id, on, nn, i - 1);
            if !keeps_prop(on, k, nn.props[k]) {
                let m = MutationModel::SetProp { id, key: k, value: nn.props[k] };
                lemma_run_push(u, rest, m);
                let v = run(u, rest)->0;
                assert(step(v, m)->Ok_0.nodes =~= with_node(
                    u,
                    id,
                    NodeModel { props: map_sets(on.props, nn.props, prop_keep(on, nn), i), ..u.nodes[id] },
                ).nodes);
            }
        }
        assert(sets + prop_drops(id, on, nn, 0) =~= sets);
    } else {
        lemma_run_props(u, id, on, nn, i, j - 1);
        let k = in_order(on.props.dom())[j - 1];
        let rest = prop_drops(id, on, nn, j - 1);
        if !nn.props.dom().contains(k) {
            let m = MutationModel::RemoveProp { id, key: k };
            assert(sets + rest.push(m) =~= (sets + rest).push(m));
            lemma_run_push(u, sets + rest, m);
            let v = run(u, sets + rest)->0;
            assert(step(v, m)->Ok_0.nodes =~= with_node(
                u,
                id,
                NodeModel {
                    props: map_drops(
                        on.props,
                        nn.props,
                        map_sets(on.props, nn.props, prop_keep(on, nn), i),
                        j,
                    ),
                    ..u.nodes[id]
                },
            ).nodes);
        }
    }
}

proof fn lemma_run_callbacks(u: Tree, id: NodeId, on: NodeModel, nn: NodeModel, i: int, j: int)
    requires
        u.nodes.dom().contains(id),
        u.nodes[id].callbacks == on.callbacks,
        0 <= i,
        0 <= j,
    ensures
        run(u, callback_sets(id, on, nn, i)) == Some(
            with_node(
                u,
                id,
                NodeModel {
                    callbacks: map_sets(on.callbacks, nn.callbacks, callback_keep(on, nn), i),
                    ..u.nodes[id]
                },
            ),
        ),
        run(u, callback_sets(id, on, nn, i) + callback_drops(id, on, nn, j)) == Some(
            with_node(
                u,
                id,
                NodeModel {
                    callbacks: map_drops(
                        on.callbacks,
                        nn.callbacks,
                        map_sets(on.callbacks, nn.callbacks, callback_keep(on, nn), i),
                        j,
                    ),
                    ..u.nodes[id]
                },
            ),
        ),
    decreases i + j,
{
    let sets = callback_sets(id, on, nn, i);
    if j == 0 {
        if i == 0 {
            assert(with_node(u, id, NodeModel { callbacks: on.callbacks, ..u.nodes[id] }) =~= u) by {
                assert(NodeModel { callbacks: on.callbacks, ..u.nodes[id] } =~= u.nodes[id]);
                assert(u.nodes.insert(id, u.nodes[id]) =~= u.nodes);
            }
        } else {
            lemma_run_callbacks(u, id, on, nn, i - 1, 0);
            let k = in_order(nn.callbacks.dom())[i - 1];
            let rest = callback_sets(id, on, nn, i - 1);
            if !keeps_callback(on, k, nn.callbacks[k]) {
                let m = MutationModel::SetCallback { id, event: k, action: nn.callbacks[k] };
                lemma_run_push(u, rest, m);
                let v = run(u, rest)->0;
                assert(step(v, m)->Ok_0.nodes =~= with_node(
                    u,
                    id,
                    NodeModel {
                        callbacks: map_sets(on.callbacks, nn.callbacks, callback_keep(on, nn), i),
                        ..u.nodes[id]
                    },
                ).nodes);
            }
        }
        assert(sets + callback_drops(id, on, nn, 0) =~= sets);
    } else {
        lemma_run_callbacks(u, id, on, nn, i, j - 1);
        let k = in_order(on.callbacks.dom())[j - 1];
        let rest = callback_drops(id, on, nn, j - 1);
        if !nn.callbacks.dom().contains(k) {
            let m = MutationModel::RemoveCallback { id, event: k };
            assert(sets + rest.push(m) =~= (sets + rest).push(m));
            lemma_run_push(u, sets + rest, m);
            let v = run(u, sets + rest)->0;
            assert(step(v, m)->Ok_0.nodes =~= with_node(
                u,
                id,
                NodeModel {
                    callbacks: map_drops(
                        on.callbacks,
                        nn.callbacks,
                        map_sets(on.callbacks, nn.callbacks, callback_keep(on, nn), i),
                        j,
                    ),
                    ..u.nodes[id]
                },
            ).nodes);
        }
    }
}

proof fn lemma_run_bindings(u: Tree, id: NodeId, on: NodeModel, nn: NodeModel, i: int, j: int)
    requires
        u.nodes.dom().contains(id),
        u.nodes[id].bindings == on.bindings,
        0 <= i,
        0 <= j,
    ensures
        run(u, binding_sets(id, on, nn, i)) == Some(
            with_node(
                u,
                id,
                NodeModel {
                    bindings: map_sets(on.bindings, nn.bindings, binding_keep(on, nn), i),
                    ..u.nodes[id]
                },
            ),
        ),
        run(u, binding_sets(id, on, nn, i) + binding_drops(id, on, nn, j)) == Some(
            with_node(
                u,
                id,
                NodeModel {
                    bindings: map_drops(
                        on.bindings,
                        nn.bindings,
                        map_sets(on.bindings, nn.bindings, binding_keep(on, nn), i),
                        j,
                    ),
                    ..u.nodes[id]
                },
            ),
        ),
    decreases i + j,
{
    let sets = binding_sets(id, on, nn, i);
    if j == 0 {
        if i == 0 {
            assert(with_node(u, id, NodeModel { bindings: on.bindings, ..u.nodes[id] }) =~= u) by {
                assert(NodeModel { bindings: on.bindings, ..u.nodes[id] } =~= u.nodes[id]);
                assert(u.nodes.insert(id, u.nodes[id]) =~= u.nodes);
            }
        } else {
            lemma_run_bindings(u, id, on, nn, i - 1, 0);
            let k = in_order(nn.bindings.dom())[i - 1];
            let rest = binding_sets(id, on, nn, i - 1);
            if !keeps_binding(on, k, nn.bindings[k]) {
                let m = MutationModel::SetBinding { id, key: k, binding: nn.bindings[k] };
                lemma_run_push(u, rest, m);
                let v = run(u, rest)->0;
                assert(step(v, m)->Ok_0.nodes =~= with_node(
                    u,
                    id,
                    NodeModel {
                        bindings: map_sets(on.bindings, nn.bindings, binding_keep(on, nn), i),
                        ..u.nodes[id]
                    },
                ).nodes);
            }
        }
        assert(sets + binding_drops(id, on, nn, 0) =~= sets);
    } else {
        lemma_run_bindings(u, id, on, nn, i, j - 1);
        let k = in_order(on.bindings.dom())[j - 1];
        let rest = binding_drops(id, on, nn, j - 1);
        if !nn.bindings.dom().contains(k) {
            let m = MutationModel::RemoveBinding { id, key: k };
            assert(sets + rest.push(m) =~= (sets + rest).push(m));
            lemma_run_push(u, sets + rest, m);
            let v = run(u, sets + rest)->0;
            assert(step(v, m)->Ok_0.nodes =~= with_node(
                u,
                id,
                NodeModel {
                    bindings: map_drops(
                        on.bindings,
                        nn.bindings,
                        map_sets(on.bindings, nn.bindings, binding_keep(on, nn), i),
                        j,
                    ),
                    ..u.nodes[id]
                },
            ).nodes);
        }
    }
}

/// The tree with other children under `id` and other parent links.
spec fn relinked(u: Tree, id: NodeId, cs: Seq<NodeId>, parent: spec_fn(NodeId) -> Option<NodeId>) -> Tree {
    Tree {
        nodes: Map::new(
            |x: NodeId| u.nodes.dom().contains(x),
            |x: NodeId|
                NodeModel {
                    children: if x == id {
                        cs
                    } else {
                        u.nodes[x].children
                    },
                    parent: parent(x),
                    ..u.nodes[x]
                },
        ),
        root: u.root,
    }
}

/// The children of `on` that `nn` keeps.
pub open spec fn kept_children(on: Seq<NodeId>, nn: Seq<NodeId>) -> Seq<NodeId> {
    on.filter(|c: NodeId| nn.contains(c))
}

proof fn lemma_kept_in(s: Seq<NodeId>, nn: Seq<NodeId>, c: NodeId)
    requires
        kept_children(s, nn).contains(c),
    ensures
        nn.contains(c),
        s.contains(c),
    decreases s.len(),
{
    reveal(Seq::filter);
    if s.len() > 0 {
        let f = kept_children(s.drop_last(), nn);
        let g = kept_children(s, nn);
        let k = choose|k: int| 0 <= k < g.len() && g[k] == c;
        if k < f.len() {
            assert(f[k] == c);
            lemma_kept_in(s.drop_last(), nn, c);
            let l = choose|l: int| 0 <= l < s.drop_last().len() && s.drop_last()[l] == c;
            assert(s[l] == c);
        } else {
            assert(s[s.len() - 1] == c);
        }
    }
}

spec fn dropped(on: NodeModel, nn: NodeModel, i: int, x: NodeId) -> bool {
    on.children.take(i).contains(x) && !nn.children.contains(x)
}

proof fn lemma_take_id(s: Seq<NodeId>, i: int, x: NodeId)
    requires
        0 < i <= s.len(),
    ensures
        s.take(i).contains(x) <==> (s.take(i - 1).contains(x) || x == s[i - 1]),
{
    let longer = s.take(i);
    let shorter = s.take(i - 1);
    if shorter.contains(x) {
        let m = choose|m: int| 0 <= m < shorter.len() && shorter[m] == x;
        assert(longer[m] == x);
    }
    if longer.contains(x) {
        let m = choose|m: int| 0 <= m < longer.len() && longer[m] == x;
        if m < i - 1 {
            assert(shorter[m] == x);
        }
    }
    assert(longer[i - 1] == s[i - 1]);
}

proof fn lemma_run_child_drops(u: Tree, id: NodeId, on: NodeModel, nn: NodeModel, i: int)
    requires
        u.nodes.dom().contains(id),
        u.nodes[id].children == on.children,
        0 <= i <= on.children.len(),
    ensures
        run(u, child_drops(id, on, nn, i)) == Some(
            relinked(
                u,
                id,
                kept_children(on.children.take(i), nn.children) + on.children.skip(i),
                |x: NodeId|
                    if dropped(on, nn, i, x) {
                        None
                    } else {
                        u.nodes[x].parent
                    },
            ),
        ),
    decreases i,
{
    reveal(Seq::filter);
    let goal = relinked(
        u,
        id,
        kept_children(on.children.take(i), nn.children) + on.children.skip(i),
        |x: NodeId|
            if dropped(on, nn, i, x) {
                None
            } else {
                u.nodes[x].parent
            },
    );
    if i == 0 {
        assert(on.children.take(0) =~= Seq::<NodeId>::empty());
        assert(kept_children(on.children.take(0), nn.children) + on.children.skip(0) =~= on.children);
        assert forall|x: NodeId| u.nodes.dom().contains(x) implies goal.nodes[x] == u.nodes[x] by {
            assert(goal.nodes[x] =~= u.nodes[x]);
        }
        assert(goal.nodes =~= u.nodes);
    } else {
        lemma_run_child_drops(u, id, on, nn, i - 1);
        let c = on.children[i - 1];
        let rest = child_drops(id, on, nn, i - 1);
        let v = run(u, rest)->0;
        let pre = kept_children(on.children.take(i - 1), nn.children);
        assert(on.children.take(i).drop_last() =~= on.children.take(i - 1));
        assert(on.children.skip(i - 1) =~= seq![c] + on.children.skip(i));
        if nn.children.contains(c) {
            assert(pre + on.children.skip(i - 1) =~= pre.push(c) + on.children.skip(i));
            assert forall|x: NodeId| u.nodes.dom().contains(x) implies goal.nodes[x] == v.nodes[x] by {
                lemma_take_id(on.children, i, x);
                assert(goal.nodes[x] =~= v.nodes[x]);
            }
            assert(goal.nodes =~= v.nodes);
        } else {
            let m = MutationModel::RemoveChild { parent: id, child: c };
            lemma_run_push(u, rest, m);
            let cs = v.nodes[id].children;
            assert(cs =~= pre + seq![c] + on.children.skip(i));
            assert(cs[pre.len() as int] == c);
            assert(cs.contains(c));
            cs.index_of_first_ensures(c);
            let at = cs.index_of_first(c)->0;
            if at < pre.len() {
                assert(pre[at] == c);
                assert(pre.contains(c));
                lemma_kept_in(on.children.take(i - 1), nn.children, c);
            }
            assert(at == pre.len());
            assert(cs.remove(at) =~= pre + on.children.skip(i));
            let w = step(v, m)->Ok_0;
            assert forall|x: NodeId| u.nodes.dom().contains(x) implies goal.nodes[x] == w.nodes[x] by {
                lemma_take_id(on.children, i, x);
                assert(goal.nodes[x] =~= w.nodes[x]);
            }
            assert(goal.nodes =~= w.nodes);
        }
    }
}

/// The children after the added ones among the first `i` of `nn` are appended to `base`.
pub open spec fn appended_children(
    base: Seq<NodeId>,
    on: Seq<NodeId>,
    nn: Seq<NodeId>,
    i: int,
) -> Seq<NodeId>
    decreases i,
{
    if i <= 0 {
        base
    } else {
        let c = nn[i - 1];
        let rest = appended_children(base, on, nn, i - 1);
        if on.contains(c) {
            rest
        } else {
            with_child(rest, c)
        }
    }
}

/// The children that the stream leaves: those kept, in the old order, then those added.
pub open spec fn patched_children(on: Seq<NodeId>, nn: Seq<NodeId>) -> Seq<NodeId> {
    appended_children(kept_children(on, nn), on, nn, nn.len() as int)
}

proof fn lemma_appended_in(base: Seq<NodeId>, on: Seq<NodeId>, nn: Seq<NodeId>, i: int, c: NodeId)
    requires
        0 <= i <= nn.len(),
        appended_children(base, on, nn, i).contains(c),
    ensures
        base.contains(c) || nn.contains(c),
    decreases i,
{
    if i > 0 {
        let rest = appended_children(base, on, nn, i - 1);
        if rest.contains(c) {
            lemma_appended_in(base, on, nn, i - 1, c);
        } else {
            let g = appended_children(base, on, nn, i);
            let k = choose|k: int| 0 <= k < g.len() && g[k] == c;
            if k < rest.len() {
                assert(rest[k] == c);
            }
            assert(nn[i - 1] == c);
        }
    }
}

/// A node with the content of `nn` and the children that `nn` keeps, where `on` is what it had and
/// `n` is what it is now.
spec fn patched_content(on: NodeModel, nn: NodeModel, n: NodeModel) -> NodeModel {
    NodeModel {
        props: merged(on.props, nn.props, prop_keep(on, nn)),
        callbacks: merged(on.callbacks, nn.callbacks, callback_keep(on, nn)),
        bindings: merged(on.bindings, nn.bindings, binding_keep(on, nn)),
        children: kept_children(on.children, nn.children),
        ..n
    }
}

/// `x` is dropped from the children of a node.
spec fn let_go(on: NodeModel, nn: NodeModel, x: NodeId) -> bool {
    on.children.contains(x) && !nn.children.contains(x)
}

spec fn content_result(u: Tree, id: NodeId, on: NodeModel, nn: NodeModel) -> Tree {
    Tree {
        nodes: Map::new(
            |x: NodeId| u.nodes.dom().contains(x),
            |x: NodeId|
                NodeModel {
                    parent: if let_go(on, nn, x) {
                        None
                    } else {
                        u.nodes[x].parent
                    },
                    ..(if x == id {
                        patched_content(on, nn, u.nodes[x])
                    } else {
                        u.nodes[x]
                    })
                },
        ),
        root: u.root,
    }
}

proof fn lemma_run_content(u: Tree, id: NodeId, on: NodeModel, nn: NodeModel)
    requires
        u.nodes.dom().contains(id),
        u.nodes[id].props == on.props,
        u.nodes[id].callbacks == on.callbacks,
        u.nodes[id].bindings == on.bindings,
        u.nodes[id].children == on.children,
        finite_node(on),
        finite_node(nn),
    ensures
        run(u, content_delta(id, on, nn)) == Some(content_result(u, id, on, nn)),
{
    let pn = in_order(nn.props.dom()).len() as int;
    let po = in_order(on.props.dom()).len() as int;
    let cn = in_order(nn.callbacks.dom()).len() as int;
    let co = in_order(on.callbacks.dom()).len() as int;
    let bn = in_order(nn.bindings.dom()).len() as int;
    let bo = in_order(on.bindings.dom()).len() as int;
    let s1 = prop_sets(id, on, nn, pn) + prop_drops(id, on, nn, po);
    let s2 = callback_sets(id, on, nn, cn) + callback_drops(id, on, nn, co);
    let s3 = binding_sets(id, on, nn, bn) + binding_drops(id, on, nn, bo);
    let s4 = child_drops(id, on, nn, on.children.len() as int);
    assert(content_delta(id, on, nn) =~= s1 + s2 + s3 + s4);
    lemma_run_props(u, id, on, nn, pn, po);
    lemma_map_merged(on.props, nn.props, prop_keep(on, nn));
    let u1 = run(u, s1)->0;
    lemma_run_callbacks(u1, id, on, nn, cn, co);
    lemma_map_merged(on.callbacks, nn.callbacks, callback_keep(on, nn));
    lemma_run_concat(u, s1, s2);
    let u2 = run(u1, s2)->0;
    lemma_run_bindings(u2, id, on, nn, bn, bo);
    lemma_map_merged(on.bindings, nn.bindings, binding_keep(on, nn));
    lemma_run_concat(u, s1 + s2, s3);
    let u3 = run(u2, s3)->0;
    lemma_run_child_drops(u3, id, on, nn, on.children.len() as int);
    lemma_run_concat(u, s1 + s2 + s3, s4);
    let u4 = run(u3, s4)->0;
    assert(on.children.take(on.children.len() as int) =~= on.children);
    assert(kept_children(on.children, nn.children) + on.children.skip(on.children.len() as int)
        =~= kept_children(on.children, nn.children));
    let goal = content_result(u, id, on, nn);
    assert forall|x: NodeId| u.nodes.dom().contains(x) implies goal.nodes[x] == u4.nodes[x] by {
        assert(goal.nodes[x] =~= u4.nodes[x]);
    }
    assert(goal.nodes =~= u4.nodes);
}

/// A node as the creations leave it: the old one, or a bare one where it is new.
pub open spec fn created_node(old: Tree, new: Tree, x: NodeId) -> NodeModel {
    if old.nodes.dom().contains(x) {
        old.nodes[x]
    } else {
        bare_node(new.nodes[x].kind)
    }
}

/// The parent of `x` before the stream, unless it is among the first `j` nodes of `new` and has let
/// `x` go.
spec fn parent_left(old: Tree, new: Tree, j: int, x: NodeId) -> Option<NodeId> {
    match created_node(old, new, x).parent {
        Some(p) => if sorted_ids(new.nodes.dom()).take(j).contains(p) && !new.nodes[p].children.contains(x) {
            None
        } else {
            Some(p)
        },
        None => None,
    }
}

/// The node that the stream leaves under `x`.
pub open spec fn patched_node(old: Tree, new: Tree, x: NodeId) -> NodeModel {
    let on = baseline(old, x);
    let nn = new.nodes[x];
    NodeModel {
        kind: created_node(old, new, x).kind,
        props: merged(on.props, nn.props, prop_keep(on, nn)),
        callbacks: merged(on.callbacks, nn.callbacks, callback_keep(on, nn)),
        bindings: merged(on.bindings, nn.bindings, binding_keep(on, nn)),
        children: patched_children(on.children, nn.children),
        parent: nn.parent,
    }
}

spec fn halfway(old: Tree, new: Tree, j: int) -> Tree {
    Tree {
        nodes: Map::new(
            |x: NodeId| old.nodes.dom().contains(x) || new.nodes.dom().contains(x),
            |x: NodeId|
                NodeModel {
                    parent: parent_left(old, new, j, x),
                    ..(if sorted_ids(new.nodes.dom()).take(j).contains(x) {
                        patched_content(baseline(old, x), new.nodes[x], created_node(old, new, x))
                    } else {
                        created_node(old, new, x)
                    })
                },
        ),
        root: old.root,
    }
}

proof fn lemma_creations(old: Tree, new: Tree, i: int)
    requires
        new.nodes.dom().finite(),
        0 <= i <= sorted_ids(new.nodes.dom()).len(),
    ensures
        run(old, creations(old, new, i)) == Some(
            Tree {
                nodes: Map::new(
                    |x: NodeId|
                        old.nodes.dom().contains(x) || sorted_ids(new.nodes.dom()).take(i).contains(x),
                    |x: NodeId| created_node(old, new, x),
                ),
                root: old.root,
            },
        ),
    decreases i,
{
    lemma_sorted_ids_exists(new.nodes.dom());
    let ids = sorted_ids(new.nodes.dom());
    let goal = Tree {
        nodes: Map::new(
            |x: NodeId| old.nodes.dom().contains(x) || ids.take(i).contains(x),
            |x: NodeId| created_node(old, new, x),
        ),
        root: old.root,
    };
    if i == 0 {
        assert(ids.take(0) =~= Seq::<NodeId>::empty());
        assert(goal.nodes =~= old.nodes);
    } else {
        lemma_creations(old, new, i - 1);
        let id = ids[i - 1];
        let rest = creations(old, new, i - 1);
        let v = run(old, rest)->0;
        assert forall|x: NodeId| #[trigger] ids.take(i).contains(x) <==> (ids.take(i - 1).contains(x) || x == id) by {
            lemma_take_id(ids, i, x);
        }
        if old.nodes.dom().contains(id) {
            assert(goal.nodes =~= v.nodes);
        } else {
            let m = MutationModel::CreateNode { id, kind: new.nodes[id].kind };
            lemma_run_push(old, rest, m);
            assert(!ids.take(i - 1).contains(id)) by {
                let shorter = ids.take(i - 1);
                if shorter.contains(id) {
                    let k = choose|k: int| 0 <= k < shorter.len() && shorter[k] == id;
                    assert(ids[k].0 < ids[i - 1].0);
                }
            }
            assert(!v.nodes.dom().contains(id));
            let w = step(v, m)->Ok_0;
            assert(goal.nodes =~= w.nodes);
        }
    }
}

/// Before the stream the node that lists `x` is the one that `x` names as its parent.
proof fn lemma_listed_before(old: Tree, new: Tree, id: NodeId, x: NodeId)
    requires
        coherent(old),
        old.nodes.dom().contains(x) || new.nodes.dom().contains(x),
    ensures
        baseline(old, id).children.contains(x) <==> created_node(old, new, x).parent == Some(id),
{
    if old.nodes.dom().contains(id) {
        lemma_listed(old, id, x);
    } else if old.nodes.dom().contains(x) {
        assert(!holds(old, IrDefect::DanglingParent { node: x, parent: id }));
    }
}

proof fn lemma_deltas(old: Tree, new: Tree, j: int)
    requires
        finite_tree(old),
        finite_tree(new),
        coherent(old),
        coherent(new),
        0 <= j <= sorted_ids(new.nodes.dom()).len(),
    ensures
        run(halfway(old, new, 0), deltas(old, new, j)) == Some(halfway(old, new, j)),
    decreases j,
{
    lemma_sorted_ids_exists(new.nodes.dom());
    let ids = sorted_ids(new.nodes.dom());
    if j > 0 {
        lemma_deltas(old, new, j - 1);
        let id = ids[j - 1];
        let u = halfway(old, new, j - 1);
        let on = baseline(old, id);
        let nn = new.nodes[id];
        assert(ids.to_set().contains(id));
        assert(new.nodes.dom().contains(id));
        lemma_not_before(ids, j - 1);
        assert(finite_node(nn));
        assert(finite_node(on));
        lemma_run_content(u, id, on, nn);
        lemma_run_concat(halfway(old, new, 0), deltas(old, new, j - 1), content_delta(id, on, nn));
        let v = content_result(u, id, on, nn);
        let goal = halfway(old, new, j);
        assert forall|x: NodeId| goal.nodes.dom().contains(x) implies goal.nodes[x] == v.nodes[x] by {
            lemma_take_id(ids, j, x);
            lemma_listed_before(old, new, id, x);
            match created_node(old, new, x).parent {
                Some(p) => {
                    lemma_take_id(ids, j, p);
                },
                None => {},
            }
            assert(goal.nodes[x] =~= v.nodes[x]);
        }
        assert(goal.nodes =~= v.nodes);
    }
}

/// The next id is none of those before it.
proof fn lemma_not_before(ids: Seq<NodeId>, j: int)
    requires
        ascending(ids),
        0 <= j < ids.len(),
    ensures
        !ids.take(j).contains(ids[j]),
{
    let shorter = ids.take(j);
    if shorter.contains(ids[j]) {
        let k = choose|k: int| 0 <= k < shorter.len() && shorter[k] == ids[j];
        assert(ids[k].0 < ids[j].0);
    }
}

/// `x` was appended to its new parent, when the first `j` nodes of `new` have got their children
/// and the next one has got the first `i` of them.
spec fn came(old: Tree, new: Tree, j: int, i: int, x: NodeId) -> bool {
    let ids = sorted_ids(new.nodes.dom());
    match new.nodes[x].parent {
        Some(q) => !baseline(old, q).children.contains(x) && (ids.take(j).contains(q) || j < ids.len() && q == ids[j]
            && new.nodes[q].children.take(i).contains(x)),
        None => false,
    }
}

/// The children of `x` at that time.
spec fn gained(old: Tree, new: Tree, j: int, i: int, x: NodeId) -> Seq<NodeId> {
    let ids = sorted_ids(new.nodes.dom());
    let on = baseline(old, x).children;
    let nn = new.nodes[x].children;
    if ids.take(j).contains(x) {
        patched_children(on, nn)
    } else if j < ids.len() && x == ids[j] {
        appended_children(kept_children(on, nn), on, nn, i)
    } else {
        kept_children(on, nn)
    }
}

/// A node of the new tree at that time.
spec fn grown_node(old: Tree, new: Tree, j: int, i: int, x: NodeId) -> NodeModel {
    NodeModel {
        children: gained(old, new, j, i, x),
        parent: if came(old, new, j, i, x) {
            new.nodes[x].parent
        } else {
            parent_left(old, new, sorted_ids(new.nodes.dom()).len() as int, x)
        },
        ..patched_node(old, new, x)
    }
}

/// The tree at that time: the nodes of the new tree are as they should be, and those that go away
/// hang under none of them.
spec fn adding(old: Tree, new: Tree, v: Tree, j: int, i: int) -> bool {
    &&& v.root == old.root
    &&& forall|x: NodeId| #[trigger]
        v.nodes.dom().contains(x) <==> (old.nodes.dom().contains(x) || new.nodes.dom().contains(x))
    &&& forall|x: NodeId| #[trigger] new.nodes.dom().contains(x) ==> v.nodes[x] == grown_node(old, new, j, i, x)
    &&& forall|x: NodeId|
        #![trigger v.nodes[x].parent]
        v.nodes.dom().contains(x) && !new.nodes.dom().contains(x) ==> match v.nodes[x].parent {
            Some(p) => !new.nodes.dom().contains(p),
            None => true,
        }
}

/// At that time the parent of a node of the new tree is its new one, or one that goes away.
proof fn lemma_grown_parent(old: Tree, new: Tree, j: int, i: int, x: NodeId)
    requires
        finite_tree(new),
        coherent(old),
        coherent(new),
        new.nodes.dom().contains(x),
    ensures
        match grown_node(old, new, j, i, x).parent {
            Some(p) => new.nodes[x].parent == Some(p) || !new.nodes.dom().contains(p),
            None => true,
        },
        !came(old, new, j, i, x) && new.nodes[x].parent is Some && !baseline(
            old,
            new.nodes[x].parent->0,
        ).children.contains(x) ==> match grown_node(old, new, j, i, x).parent {
            Some(p) => !new.nodes.dom().contains(p),
            None => true,
        },
{
    lemma_sorted_ids_exists(new.nodes.dom());
    let ids = sorted_ids(new.nodes.dom());
    assert(ids.take(ids.len() as int) =~= ids);
    match created_node(old, new, x).parent {
        Some(p) => {
            assert(ids.to_set().contains(p) == new.nodes.dom().contains(p));
            if new.nodes.dom().contains(p) {
                lemma_listed(new, p, x);
            }
            lemma_listed_before(old, new, p, x);
        },
        None => {},
    }
}

/// Climbing from a node of the new tree one meets what lies above it there, or leaves the new tree.
proof fn lemma_climb_at(old: Tree, new: Tree, v: Tree, j: int, i: int, n: NodeId, k: nat)
    requires
        finite_tree(new),
        coherent(old),
        coherent(new),
        adding(old, new, v, j, i),
        new.nodes.dom().contains(n),
    ensures
        match ancestor(v, n, k) {
            Some(y) => new.nodes.dom().contains(y) ==> ancestor(new, n, k) == Some(y),
            None => true,
        },
    decreases k,
{
    if k > 0 {
        lemma_climb_at(old, new, v, j, i, n, (k - 1) as nat);
        match ancestor(v, n, (k - 1) as nat) {
            Some(c) => {
                if new.nodes.dom().contains(c) {
                    lemma_grown_parent(old, new, j, i, c);
                } else if v.nodes.dom().contains(c) {
                    assert(v.nodes[c].parent == v.nodes[c].parent);
                }
            },
            None => {},
        }
    }
}

/// The next child is appended, if it is a new one.
proof fn lemma_add_one(old: Tree, new: Tree, v: Tree, j: int, i: int)
    requires
        finite_tree(new),
        coherent(old),
        coherent(new),
        children_distinct(new),
        0 <= j < sorted_ids(new.nodes.dom()).len(),
        0 <= i < new.nodes[sorted_ids(new.nodes.dom())[j]].children.len(),
        adding(old, new, v, j, i),
    ensures
        ({
            let id = sorted_ids(new.nodes.dom())[j];
            let c = new.nodes[id].children[i];
            let m = MutationModel::AppendChild { parent: id, child: c };
            if baseline(old, id).children.contains(c) {
                adding(old, new, v, j, i + 1)
            } else {
                step(v, m) is Ok && adding(old, new, step(v, m)->Ok_0, j, i + 1)
            }
        }),
{
    lemma_sorted_ids_exists(new.nodes.dom());
    let ids = sorted_ids(new.nodes.dom());
    let id = ids[j];
    let nn = new.nodes[id].children;
    let on = baseline(old, id).children;
    let c = nn[i];
    let m = MutationModel::AppendChild { parent: id, child: c };
    assert(ids.to_set().contains(id));
    lemma_not_before(ids, j);
    assert(nn.contains(c));
    lemma_listed(new, id, c);
    assert forall|x: NodeId| nn.take(i + 1).contains(x) <==> nn.take(i).contains(x) || x == c by {
        lemma_take_id(nn, i + 1, x);
    }
    assert(!nn.take(i).contains(c)) by {
        if nn.take(i).contains(c) {
            let k = choose|k: int| 0 <= k < nn.take(i).len() && nn.take(i)[k] == c;
            assert(nn[k] == nn[i]);
        }
    }
    if on.contains(c) {
        assert forall|x: NodeId| #[trigger] new.nodes.dom().contains(x) implies v.nodes[x] == grown_node(
            old,
            new,
            j,
            i + 1,
            x,
        ) by {
            assert(came(old, new, j, i, x) == came(old, new, j, i + 1, x));
            assert(gained(old, new, j, i, x) == gained(old, new, j, i + 1, x));
        }
    } else {
        if above(v, c, id) {
            let k = choose|k: nat| #[trigger] ancestor(v, id, k) == Some(c);
            lemma_climb_at(old, new, v, j, i, id, k);
            assert(ancestor(new, id, k + 1) == Some(id));
            assert(on_cycle(new, id));
            assert(holds(new, IrDefect::Cycle { node: id }));
        }
        let w = step(v, m)->Ok_0;
        assert(!came(old, new, j, i, c));
        lemma_grown_parent(old, new, j, i, c);
        assert(v.nodes[c].parent == grown_node(old, new, j, i, c).parent);
        assert(v.nodes.dom().contains(id) && v.nodes.dom().contains(c));
        assert(id != c) by {
            if id == c {
                assert(ancestor(new, id, 1) == Some(id)) by {
                    reveal_with_fuel(ancestor, 2);
                }
                assert(on_cycle(new, id));
                assert(holds(new, IrDefect::Cycle { node: id }));
            }
        }
        assert(w.nodes.dom() =~= v.nodes.dom());
        assert forall|x: NodeId| #[trigger] new.nodes.dom().contains(x) implies w.nodes[x] == grown_node(
            old,
            new,
            j,
            i + 1,
            x,
        ) by {
            assert(v.nodes[x] == grown_node(old, new, j, i, x));
            if x != c {
                assert(came(old, new, j, i, x) == came(old, new, j, i + 1, x));
            } else {
                assert(came(old, new, j, i + 1, x));
            }
            if x == id {
                assert(gained(old, new, j, i + 1, x) == with_child(gained(old, new, j, i, x), c));
            } else {
                assert(gained(old, new, j, i + 1, x) == gained(old, new, j, i, x));
            }
            assert(w.nodes[x] =~= grown_node(old, new, j, i + 1, x));
        }
        assert forall|x: NodeId|
            #![trigger w.nodes[x].parent]
            w.nodes.dom().contains(x) && !new.nodes.dom().contains(x) implies match w.nodes[x].parent {
            Some(p) => !new.nodes.dom().contains(p),
            None => true,
        } by {
            assert(w.nodes[x].parent == v.nodes[x].parent);
        }
    }
}

proof fn lemma_add_all(old: Tree, new: Tree, v: Tree, j: int, i: int)
    requires
        finite_tree(new),
        coherent(old),
        coherent(new),
        children_distinct(new),
        0 <= j < sorted_ids(new.nodes.dom()).len(),
        0 <= i <= new.nodes[sorted_ids(new.nodes.dom())[j]].children.len(),
        adding(old, new, v, j, 0),
    ensures
        ({
            let id = sorted_ids(new.nodes.dom())[j];
            let r = run(v, child_adds(id, baseline(old, id), new.nodes[id], i));
            r is Some && adding(old, new, r->0, j, i)
        }),
    decreases i,
{
    let id = sorted_ids(new.nodes.dom())[j];
    if i > 0 {
        lemma_add_all(old, new, v, j, i - 1);
        let rest = child_adds(id, baseline(old, id), new.nodes[id], i - 1);
        let u = run(v, rest)->0;
        lemma_add_one(old, new, u, j, i - 1);
        let c = new.nodes[id].children[i - 1];
        lemma_run_push(v, rest, MutationModel::AppendChild { parent: id, child: c });
    }
}

proof fn lemma_adds(old: Tree, new: Tree, v: Tree, j: int)
    requires
        finite_tree(new),
        coherent(old),
        coherent(new),
        children_distinct(new),
        0 <= j <= sorted_ids(new.nodes.dom()).len(),
        adding(old, new, v, 0, 0),
    ensures
        run(v, adds(old, new, j)) is Some,
        adding(old, new, run(v, adds(old, new, j))->0, j, 0),
    decreases j,
{
    if j > 0 {
        lemma_sorted_ids_exists(new.nodes.dom());
        let ids = sorted_ids(new.nodes.dom());
        lemma_adds(old, new, v, j - 1);
        let id = ids[j - 1];
        let n = new.nodes[id].children.len() as int;
        let rest = adds(old, new, j - 1);
        let more = child_adds(id, baseline(old, id), new.nodes[id], n);
        let u = run(v, rest)->0;
        lemma_add_all(old, new, u, j - 1, n);
        lemma_run_concat(v, rest, more);
        let w = run(u, more)->0;
        assert(ids.to_set().contains(id));
        assert(new.nodes[id].children.take(n) =~= new.nodes[id].children);
        assert forall|x: NodeId| #[trigger] new.nodes.dom().contains(x) implies w.nodes[x] == grown_node(
            old,
            new,
            j,
            0,
            x,
        ) by {
            assert(w.nodes[x] == grown_node(old, new, j - 1, n, x));
            lemma_take_id(ids, j, x);
            assert(gained(old, new, j, 0, x) == gained(old, new, j - 1, n, x)) by {
                if j < ids.len() && x == ids[j] {
                    lemma_not_before(ids, j);
                    lemma_take_id(ids, j, x);
                }
            }
            match new.nodes[x].parent {
                Some(q) => {
                    lemma_take_id(ids, j, q);
                    assert(!holds(new, IrDefect::DanglingParent { node: x, parent: q }));
                    lemma_listed(new, q, x);
                    assert(new.nodes[x].children.take(0) =~= Seq::<NodeId>::empty());
                    assert(new.nodes[q].children.take(0) =~= Seq::<NodeId>::empty());
                    assert(came(old, new, j, 0, x) == came(old, new, j - 1, n, x));
                },
                None => {},
            }
        }
    }
}

/// The root that the stream leaves: the new one where it sets one, and none where the old root's
/// node goes away.
pub open spec fn patched_root(old: Tree, new: Tree) -> Option<NodeId> {
    let r = if old.root != new.root && new.root is Some {
        new.root
    } else {
        old.root
    };
    match r {
        Some(x) => if old.nodes.dom().contains(x) && !new.nodes.dom().contains(x) {
            None
        } else {
            r
        },
        None => None,
    }
}

spec fn removed(old: Tree, new: Tree, k: int, x: NodeId) -> bool {
    sorted_ids(old.nodes.dom()).take(k).contains(x) && !new.nodes.dom().contains(x)
}

proof fn lemma_removals(old: Tree, new: Tree, u: Tree, k: int)
    requires
        old.nodes.dom().finite(),
        0 <= k <= sorted_ids(old.nodes.dom()).len(),
        forall|x: NodeId| #[trigger]
            u.nodes.dom().contains(x) <==> (old.nodes.dom().contains(x) || new.nodes.dom().contains(x)),
        forall|x: NodeId, y: NodeId| #[trigger]
            new.nodes.dom().contains(x) && #[trigger] u.nodes[x].children.contains(y) ==> new.nodes.dom().contains(y),
    ensures
        run(u, removals(old, new, k)) is Some,
        ({
            let v = run(u, removals(old, new, k))->0;
            &&& forall|x: NodeId| #[trigger]
                v.nodes.dom().contains(x) <==> (u.nodes.dom().contains(x) && !removed(old, new, k, x))
            &&& forall|x: NodeId| #[trigger] new.nodes.dom().contains(x) ==> v.nodes[x] == bereft(old, new, k, u.nodes[x])
            &&& v.root == (match u.root {
                Some(r) => if removed(old, new, k, r) {
                    None
                } else {
                    u.root
                },
                None => None,
            })
        }),
    decreases k,
{
    lemma_sorted_ids_exists(old.nodes.dom());
    let ids = sorted_ids(old.nodes.dom());
    if k == 0 {
        assert(ids.take(0) =~= Seq::<NodeId>::empty());
    } else {
        lemma_removals(old, new, u, k - 1);
        let id = ids[k - 1];
        let rest = removals(old, new, k - 1);
        let v = run(u, rest)->0;
        assert(ids.to_set().contains(id));
        assert forall|x: NodeId| #[trigger] removed(old, new, k, x) <==> (removed(old, new, k - 1, x) || x == id
            && !new.nodes.dom().contains(id)) by {
            lemma_take_id(ids, k, x);
        }
        if !new.nodes.dom().contains(id) {
            let m = MutationModel::RemoveNode { id };
            lemma_run_push(u, rest, m);
            lemma_not_before(ids, k - 1);
            assert(!removed(old, new, k - 1, id));
            assert(v.nodes.dom().contains(id));
            let w = step(v, m)->Ok_0;
            assert forall|x: NodeId| #[trigger] new.nodes.dom().contains(x) implies w.nodes[x] == bereft(
                old,
                new,
                k,
                u.nodes[x],
            ) by {
                assert(v.nodes[x] == bereft(old, new, k - 1, u.nodes[x]));
                assert(u.nodes.dom().contains(x));
                assert(v.nodes.dom().contains(x));
                if v.nodes[id].parent == Some(x) {
                    assert(!u.nodes[x].children.contains(id));
                    crate::undo::lemma_filter_absent(u.nodes[x].children, id);
                }
                assert(w.nodes[x] =~= bereft(old, new, k, u.nodes[x]));
            }
        }
    }
}

/// The node without its parent, where that is among the first `k` of the old ones that go away.
spec fn bereft(old: Tree, new: Tree, k: int, n: NodeModel) -> NodeModel {
    match n.parent {
        Some(p) => if removed(old, new, k, p) {
            NodeModel { parent: None, ..n }
        } else {
            n
        },
        None => n,
    }
}

/// The tree that the stream leaves.
pub open spec fn patched(old: Tree, new: Tree) -> Tree {
    Tree {
        nodes: Map::new(|x: NodeId| new.nodes.dom().contains(x), |x: NodeId| patched_node(old, new, x)),
        root: patched_root(old, new),
    }
}

/// Where the content edits end, the children can be added.
proof fn lemma_ready_to_add(old: Tree, new: Tree)
    requires
        finite_tree(new),
        coherent(old),
        coherent(new),
    ensures
        adding(old, new, halfway(old, new, sorted_ids(new.nodes.dom()).len() as int), 0, 0),
{
    lemma_sorted_ids_exists(new.nodes.dom());
    let ids = sorted_ids(new.nodes.dom());
    let n = ids.len() as int;
    let h = halfway(old, new, n);
    assert(ids.take(n) =~= ids);
    assert(ids.take(0) =~= Seq::<NodeId>::empty());
    assert forall|x: NodeId| #[trigger] new.nodes.dom().contains(x) implies h.nodes[x] == grown_node(old, new, 0, 0, x) by {
        assert(ids.to_set().contains(x));
        match new.nodes[x].parent {
            Some(q) => {
                assert(new.nodes[q].children.take(0) =~= Seq::<NodeId>::empty());
            },
            None => {},
        }
        assert(h.nodes[x] =~= grown_node(old, new, 0, 0, x));
    }
    assert forall|x: NodeId|
        #![trigger h.nodes[x].parent]
        h.nodes.dom().contains(x) && !new.nodes.dom().contains(x) implies match h.nodes[x].parent {
        Some(p) => !new.nodes.dom().contains(p),
        None => true,
    } by {
        match created_node(old, new, x).parent {
            Some(p) => {
                assert(ids.to_set().contains(p) == new.nodes.dom().contains(p));
                if new.nodes.dom().contains(p) {
                    lemma_listed(new, p, x);
                }
            },
            None => {},
        }
    }
}

/// Every mutation that `diff` emits is accepted in turn, and together they turn the old tree into
/// the patched one.
pub proof fn law_diff_applies(old: Tree, new: Tree)
    requires
        finite_tree(old),
        finite_tree(new),
        coherent(old),
        coherent(new),
        children_distinct(new),
    ensures
        run(old, diff_model(old, new)) == Some(patched(old, new)),
{
    lemma_sorted_ids_exists(new.nodes.dom());
    lemma_sorted_ids_exists(old.nodes.dom());
    let ids = sorted_ids(new.nodes.dom());
    let n = ids.len() as int;
    let olds = sorted_ids(old.nodes.dom());
    let c = creations(old, new, n);
    let d = deltas(old, new, n);
    let a = adds(old, new, n);
    let r = root_delta(old, new);
    let x = removals(old, new, olds.len() as int);
    lemma_creations(old, new, n);
    assert(ids.take(n) =~= ids);
    assert(olds.take(olds.len() as int) =~= olds);
    assert(ids.take(0) =~= Seq::<NodeId>::empty());
    let u0 = run(old, c)->0;
    let h0 = halfway(old, new, 0);
    assert forall|y: NodeId| #[trigger] ids.contains(y) <==> new.nodes.dom().contains(y) by {
        assert(ids.to_set().contains(y) == new.nodes.dom().contains(y));
    }
    assert forall|y: NodeId| #[trigger] olds.contains(y) <==> old.nodes.dom().contains(y) by {
        assert(olds.to_set().contains(y) == old.nodes.dom().contains(y));
    }
    assert forall|y: NodeId| u0.nodes.dom().contains(y) implies u0.nodes[y] == h0.nodes[y] by {
        assert(u0.nodes[y] =~= h0.nodes[y]);
    }
    assert(u0.nodes =~= h0.nodes);
    lemma_deltas(old, new, n);
    lemma_run_concat(old, c, d);
    let h = halfway(old, new, n);
    lemma_ready_to_add(old, new);
    lemma_adds(old, new, h, n);
    lemma_run_concat(old, c + d, a);
    let g = run(h, a)->0;
    lemma_run_concat(old, c + d + a, r);
    let u1 = Tree {
        root: if old.root != new.root && new.root is Some {
            new.root
        } else {
            old.root
        },
        ..g
    };
    assert(run(g, r) == Some(u1)) by {
        if old.root != new.root && new.root is Some {
            let m = MutationModel::SetRoot { id: new.root->0 };
            assert(!holds(new, IrDefect::RootMissing { root: new.root->0 }));
            lemma_run_push(g, Seq::empty(), m);
            assert(Seq::<MutationModel>::empty().push(m) =~= r);
        } else {
            assert(u1 =~= g);
        }
    }
    lemma_run_concat(old, c + d + a + r, x);
    assert forall|y: NodeId| #[trigger] new.nodes.dom().contains(y) implies u1.nodes[y] == grown_node(old, new, n, 0, y)
        && ids.take(n).contains(y) by {}
    assert forall|y: NodeId, z: NodeId| #[trigger] new.nodes.dom().contains(y) && #[trigger] u1.nodes[y].children.contains(
        z,
    ) implies new.nodes.dom().contains(z) by {
        let on = baseline(old, y);
        let nn = new.nodes[y];
        assert(ids.take(n).contains(y));
        let base = kept_children(on.children, nn.children);
        lemma_appended_in(base, on.children, nn.children, nn.children.len() as int, z);
        if base.contains(z) {
            lemma_kept_in(on.children, nn.children, z);
        }
        assert(!holds(new, IrDefect::ChildMissing { parent: y, child: z }));
    }
    let all = olds.len() as int;
    lemma_removals(old, new, u1, all);
    let v = run(u1, x)->0;
    let goal = patched(old, new);
    assert forall|y: NodeId| goal.nodes.dom().contains(y) implies goal.nodes[y] == v.nodes[y] by {
        assert(ids.take(n).contains(y));
        assert(v.nodes[y] == bereft(old, new, all, u1.nodes[y]));
        lemma_grown_parent(old, new, n, 0, y);
        let now = new.nodes[y].parent;
        match now {
            Some(q) => {
                assert(!holds(new, IrDefect::DanglingParent { node: y, parent: q }));
                lemma_listed(new, q, y);
                lemma_listed_before(old, new, q, y);
                assert(ids.take(n).contains(q));
                assert(u1.nodes[y].parent == now);
            },
            None => {
                match u1.nodes[y].parent {
                    Some(p) => {
                        assert(!holds(old, IrDefect::DanglingParent { node: y, parent: p }));
                        assert(olds.take(all).contains(p));
                        assert(removed(old, new, all, p));
                    },
                    None => {},
                }
            },
        }
        assert(goal.nodes[y] =~= v.nodes[y]);
    }
    assert(goal.nodes.dom() =~= v.nodes.dom()) by {
        assert forall|y: NodeId| goal.nodes.dom().contains(y) <==> v.nodes.dom().contains(y) by {
            assert(v.nodes.dom().contains(y) <==> (u1.nodes.dom().contains(y) && !removed(old, new, all, y)));
        }
    }
    assert(goal.nodes =~= v.nodes);
    assert(goal =~= v);
    assert(diff_model(old, new) =~= c + d + a + r + x);
}

/// Equal values, or values that compare equal.
pub open spec fn alike_value(a: ValueModel, b: ValueModel) -> bool {
    a == b || value_same(a, b)
}

/// Equal actions, or actions that compare equal.
pub open spec fn alike_action(a: ActionModel, b: ActionModel) -> bool {
    a == b || action_same(a, b)
}

/// Nodes that differ at most in how a value that compares equal is written.
pub open spec fn alike_node(a: NodeModel, b: NodeModel) -> bool {
    &&& a.kind == b.kind
    &&& a.children == b.children
    &&& a.parent == b.parent
    &&& a.bindings == b.bindings
    &&& a.props.dom() == b.props.dom()
    &&& forall|k: Seq<char>| #[trigger] b.props.dom().contains(k) ==> alike_value(a.props[k], b.props[k])
    &&& a.callbacks.dom() == b.callbacks.dom()
    &&& forall|k: Seq<char>| #[trigger]
        b.callbacks.dom().contains(k) ==> alike_action(a.callbacks[k], b.callbacks[k])
}

/// Trees with the same root and alike nodes under the same ids.
pub open spec fn alike(a: Tree, b: Tree) -> bool {
    &&& a.root == b.root
    &&& a.nodes.dom() == b.nodes.dom()
    &&& forall|x: NodeId| #[trigger] b.nodes.dom().contains(x) ==> alike_node(a.nodes[x], b.nodes[x])
}

/// What a stream without reordering, re-kinding and root removal can reach: kinds stay, children
/// keep their order with new ones last, and a root that is dropped goes away with its node. Nodes
/// may move from any parent to any other.
pub open spec fn reachable(old: Tree, new: Tree) -> bool {
    &&& forall|x: NodeId| #[trigger]
        new.nodes.dom().contains(x) ==> {
            &&& old.nodes.dom().contains(x) ==> old.nodes[x].kind == new.nodes[x].kind
            &&& patched_children(baseline(old, x).children, new.nodes[x].children)
                == new.nodes[x].children
        }
    &&& new.root is None ==> (old.root matches Some(r) ==> !new.nodes.dom().contains(r))
}

/// In a coherent tree the node that lists `x` is the one that `x` names as its parent.
proof fn lemma_listed(t: Tree, id: NodeId, x: NodeId)
    requires
        coherent(t),
        t.nodes.dom().contains(id),
    ensures
        t.nodes[id].children.contains(x) <==> (t.nodes.dom().contains(x) && t.nodes[x].parent == Some(id)),
{
    assert(!holds(t, IrDefect::ChildMissing { parent: id, child: x }));
    assert(!holds(t, IrDefect::BackrefMismatch { parent: id, child: x }));
}

/// Applied to an old tree whose links agree, the stream of `diff` is accepted edit by edit, and it
/// reproduces a new tree whose links agree exactly where `reachable` says so.
pub proof fn law_diff_reproduces(old: Tree, new: Tree)
    requires
        finite_tree(old),
        finite_tree(new),
        coherent(old),
        coherent(new),
        children_distinct(new),
    ensures
        run(old, diff_model(old, new)) is Some,
        alike(run(old, diff_model(old, new))->0, new) <==> reachable(old, new),
{
    law_diff_applies(old, new);
    let t = patched(old, new);
    assert forall|x: NodeId| #[trigger] new.nodes.dom().contains(x) implies (alike_node(
        t.nodes[x],
        new.nodes[x],
    ) <==> {
        &&& old.nodes.dom().contains(x) ==> old.nodes[x].kind == new.nodes[x].kind
        &&& patched_children(baseline(old, x).children, new.nodes[x].children) == new.nodes[x].children
    }) by {
        let a = t.nodes[x];
        let b = new.nodes[x];
        assert(a.bindings =~= b.bindings);
        assert(a.props.dom() =~= b.props.dom());
        assert(a.callbacks.dom() =~= b.callbacks.dom());
    }
    assert(t.nodes.dom() =~= new.nodes.dom());
    if new.root is Some {
        assert(!holds(new, IrDefect::RootMissing { root: new.root->0 }));
    }
    if old.root is Some {
        assert(!holds(old, IrDefect::RootMissing { root: old.root->0 }));
    }
    assert(t.root == new.root <==> (new.root is None ==> (old.root matches Some(r) ==> !new.nodes.dom().contains(
        r,
    ))));
}

/// Between documents whose links agree, the stream of `diff` is accepted edit by edit and
/// reproduces the new document exactly where `reachable` says so.
pub proof fn law_diff_of_documents(old_doc: Document, new_doc: Document)
    requires
        coherent(old_doc@.tree),
        coherent(new_doc@.tree),
        children_distinct(new_doc@.tree),
    ensures
        run(old_doc@.tree, diff_model(old_doc@.tree, new_doc@.tree)) is Some,
        alike(
            run(old_doc@.tree, diff_model(old_doc@.tree, new_doc@.tree))->0,
            new_doc@.tree,
        ) <==> reachable(old_doc@.tree, new_doc@.tree),
{
    law_documents_are_finite(old_doc);
    law_documents_are_finite(new_doc);
    law_diff_reproduces(old_doc@.tree, new_doc@.tree);
}

} // verus!
