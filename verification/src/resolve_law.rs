//! What every resolved document has in common.
use vstd::prelude::*;

use crate::coherence::{above, ancestor, lemma_ancestor_add};
use crate::expr::Outcome;
use crate::ir::{empty_doc, DocModel, MutationModel, Tree};
use crate::lowering::{created, sys, tidy};
use crate::lowering_law::{
    lemma_created_sprouts, lemma_empty_sprouting, lemma_hung_sprouts, lemma_set_sprouts, lemma_sprouting_orderly,
    lemma_younger_not_above, orderly, rooted_in, sprouting, wired,
};
use crate::node::NodeId;
use crate::resolve::{
    appended, bound_at, emitted, itemized, listed, repeated, resolved, resolved_at, resolvable, spliced,
    with_bound, with_callbacks, with_children, with_item, with_props, World,
};
use crate::text::in_order;
use crate::value::ValueModel;

verus! {

/// Every node is an ordinary one with no binding on it, and the ids lie below the next one.
pub open spec fn literal(d: DocModel) -> bool {
    &&& tidy(d)
    &&& forall|id: NodeId| #[trigger]
        d.tree.nodes.dom().contains(id) ==> {
            &&& d.tree.nodes[id].bindings == Map::<Seq<char>, Seq<char>>::empty()
            &&& d.tree.nodes[id].kind != "If"@
            &&& d.tree.nodes[id].kind != "For"@
        }
}

/// A literal document that has only grown.
spec fn plain(d: DocModel) -> bool {
    literal(d) && sprouting(d)
}

/// Nodes of `d`, in ascending order, that are younger than `base` and hang nowhere yet.
spec fn loose(base: DocModel, d: DocModel, ids: Seq<NodeId>) -> bool {
    &&& forall|i: int| 0 <= i < ids.len() ==> is_loose(base, d, #[trigger] ids[i])
    &&& forall|i: int, j: int| 0 <= i < j < ids.len() ==> (#[trigger] ids[i]).0 < (#[trigger] ids[j]).0
}

spec fn is_loose(base: DocModel, d: DocModel, id: NodeId) -> bool {
    d.tree.nodes.dom().contains(id) && d.tree.nodes[id].parent is None && base.next_id <= id.0
}

/// `e` has no nodes but those of `d` and younger ones.
spec fn only_younger(d: DocModel, e: DocModel) -> bool {
    forall|x: NodeId| #[trigger] e.tree.nodes.dom().contains(x) && x.0 < d.next_id ==> d.tree.nodes.dom().contains(x)
}

/// No nodes but these are younger than `base` and hang nowhere.
spec fn all_loose(base: DocModel, d: DocModel, ids: Seq<NodeId>) -> bool {
    forall|x: NodeId| #[trigger]
        d.tree.nodes.dom().contains(x) && base.next_id <= x.0 && d.tree.nodes[x].parent is None ==> ids.contains(x)
}

/// `e` has the nodes of `d`, with the parents that they had.
spec fn same_nodes(d: DocModel, e: DocModel) -> bool {
    &&& rooted_in(d, e)
    &&& e.next_id == d.next_id
    &&& e.tree.nodes.dom() == d.tree.nodes.dom()
}

/// Where no node comes and no parent changes, the loose nodes are the same.
proof fn lemma_same_loose(base: DocModel, d: DocModel, e: DocModel, ids: Seq<NodeId>)
    requires
        same_nodes(d, e),
        all_loose(base, d, ids),
    ensures
        all_loose(base, e, ids),
{
    assert forall|x: NodeId| #[trigger]
        e.tree.nodes.dom().contains(x) && base.next_id <= x.0 && e.tree.nodes[x].parent is None implies ids.contains(x) by {
        assert(e.tree.nodes[x].parent == d.tree.nodes[x].parent);
        assert(d.tree.nodes.dom().contains(x));
    }
}

/// The loose nodes are those that were loose and those that came.
proof fn lemma_all_loose_on(base: DocModel, d: DocModel, e: DocModel, acc: Seq<NodeId>, ids: Seq<NodeId>)
    requires
        rooted_in(d, e),
        only_younger(d, e),
        all_loose(base, d, acc),
        all_loose(d, e, ids),
    ensures
        all_loose(base, e, acc + ids),
{
    let all = acc + ids;
    assert forall|x: NodeId| #[trigger]
        e.tree.nodes.dom().contains(x) && base.next_id <= x.0 && e.tree.nodes[x].parent is None implies all.contains(x) by {
        if x.0 < d.next_id {
            assert(d.tree.nodes.dom().contains(x));
            assert(e.tree.nodes[x].parent == d.tree.nodes[x].parent);
            let k = choose|k: int| 0 <= k < acc.len() && acc[k] == x;
            assert(all[k] == x);
        } else {
            let k = choose|k: int| 0 <= k < ids.len() && ids[k] == x;
            assert(all[acc.len() + k] == x);
        }
    }
}

/// Loose nodes, and those made after them, are loose together.
proof fn lemma_loose_on(base: DocModel, d: DocModel, e: DocModel, acc: Seq<NodeId>, ids: Seq<NodeId>)
    requires
        tidy(d),
        rooted_in(base, d),
        rooted_in(d, e),
        loose(base, d, acc),
        loose(d, e, ids),
    ensures
        loose(base, e, acc + ids),
{
    let all = acc + ids;
    assert forall|i: int| 0 <= i < all.len() implies is_loose(base, e, #[trigger] all[i]) by {
        if i < acc.len() {
            assert(is_loose(base, d, acc[i]));
            assert(e.tree.nodes[acc[i]].parent == d.tree.nodes[acc[i]].parent);
        } else {
            assert(is_loose(d, e, ids[i - acc.len()]));
        }
    }
    assert forall|i: int, j: int| 0 <= i < j < all.len() implies (#[trigger] all[i]).0 < (#[trigger] all[j]).0 by {
        if i < acc.len() {
            assert(is_loose(base, d, acc[i]));
            if j < acc.len() {
                assert(acc[i].0 < acc[j].0);
            } else {
                assert(is_loose(d, e, ids[j - acc.len()]));
            }
        } else {
            assert(ids[i - acc.len()].0 < ids[j - acc.len()].0);
        }
    }
}

/// Nodes stay loose as long as nothing is hung.
proof fn lemma_still_loose(base: DocModel, d: DocModel, e: DocModel, ids: Seq<NodeId>)
    requires
        rooted_in(d, e),
        loose(base, d, ids),
    ensures
        loose(base, e, ids),
{
    assert forall|i: int| 0 <= i < ids.len() implies is_loose(base, e, #[trigger] ids[i]) by {
        assert(is_loose(base, d, ids[i]));
        assert(e.tree.nodes[ids[i]].parent == d.tree.nodes[ids[i]].parent);
    }
}

proof fn lemma_set(d: DocModel, m: MutationModel)
    requires
        plain(d),
        m is SetProp || m is SetCallback || m is SetRoot,
    ensures
        plain(sys(d, m)),
        same_nodes(d, sys(d, m)),
{
    lemma_set_sprouts(d, m);
    assert(sys(d, m).tree.nodes.dom() =~= d.tree.nodes.dom());
}

proof fn lemma_created(d: DocModel, kind: Seq<char>)
    requires
        plain(d),
        d.next_id < u64::MAX,
        kind != "If"@,
        kind != "For"@,
    ensures
        plain(created(d, kind)),
        rooted_in(d, created(d, kind)),
        is_loose(d, created(d, kind), NodeId(d.next_id)),
        created(d, kind).next_id == d.next_id + 1,
        created(d, kind).tree.nodes.dom() == d.tree.nodes.dom().insert(NodeId(d.next_id)),
{
    crate::lowering::lemma_created(d, kind);
    lemma_created_sprouts(d, kind);
    let e = created(d, kind);
    assert(e.tree.nodes.dom() =~= d.tree.nodes.dom().insert(NodeId(d.next_id)));
    assert forall|id: NodeId| #[trigger] e.tree.nodes.dom().contains(id) implies {
        &&& e.tree.nodes[id].bindings == Map::<Seq<char>, Seq<char>>::empty()
        &&& e.tree.nodes[id].kind != "If"@
        &&& e.tree.nodes[id].kind != "For"@
    } by {
        if id != NodeId(d.next_id) {
            assert(d.tree.nodes.dom().contains(id));
        }
    }
}

proof fn lemma_props(d: DocModel, id: NodeId, props: Map<Seq<char>, ValueModel>, n: int)
    requires
        plain(d),
    ensures
        plain(with_props(d, id, props, n)),
        same_nodes(d, with_props(d, id, props, n)),
    decreases n,
{
    if n > 0 {
        lemma_props(d, id, props, n - 1);
        let k = in_order(props.dom())[n - 1];
        lemma_set(with_props(d, id, props, n - 1), MutationModel::SetProp { id, key: k, value: props[k] });
    }
}

proof fn lemma_bound(w: World, d: DocModel, id: NodeId, bs: Map<Seq<char>, Seq<char>>, n: int)
    requires
        plain(d),
    ensures
        with_bound(w, d, id, bs, n) matches Some(e) ==> plain(e) && same_nodes(d, e),
    decreases n,
{
    if n > 0 {
        lemma_bound(w, d, id, bs, n - 1);
        let k = in_order(bs.dom())[n - 1];
        match with_bound(w, d, id, bs, n - 1) {
            Some(e) => match crate::expr::bound(bs[k], w.state, w.fl) {
                Outcome::Is(v) => {
                    lemma_set(e, MutationModel::SetProp { id, key: k, value: v });
                },
                _ => {},
            },
            None => {},
        }
    }
}

proof fn lemma_callbacks(d: DocModel, id: NodeId, cs: Map<Seq<char>, crate::value::ActionModel>, n: int)
    requires
        plain(d),
    ensures
        plain(with_callbacks(d, id, cs, n)),
        same_nodes(d, with_callbacks(d, id, cs, n)),
    decreases n,
{
    if n > 0 {
        lemma_callbacks(d, id, cs, n - 1);
        let k = in_order(cs.dom())[n - 1];
        lemma_set(with_callbacks(d, id, cs, n - 1), MutationModel::SetCallback { id, event: k, action: cs[k] });
    }
}

proof fn lemma_hung_parent(d: DocModel, parent: NodeId, child: NodeId)
    requires
        sprouting(d),
        d.tree.nodes.dom().contains(parent),
        d.tree.nodes.dom().contains(child),
        parent.0 < child.0,
    ensures
        sys(d, MutationModel::AppendChild { parent, child }).tree.nodes[child].parent == Some(parent),
        sys(d, MutationModel::AppendChild { parent, child }).tree.root == d.tree.root,
{
    lemma_younger_not_above(d.tree, parent, child);
}

/// Loose nodes are hung under an older one, in their order.
proof fn lemma_children(base: DocModel, d: DocModel, parent: NodeId, ids: Seq<NodeId>, n: int)
    requires
        plain(d),
        tidy(base),
        rooted_in(base, d),
        loose(base, d, ids),
        d.tree.nodes.dom().contains(parent),
        forall|i: int| 0 <= i < ids.len() ==> parent.0 < (#[trigger] ids[i]).0,
        0 <= n <= ids.len(),
    ensures
        plain(with_children(d, parent, ids, n)),
        rooted_in(base, with_children(d, parent, ids, n)),
        with_children(d, parent, ids, n).tree.nodes.dom() == d.tree.nodes.dom(),
        with_children(d, parent, ids, n).next_id == d.next_id,
        with_children(d, parent, ids, n).tree.root == d.tree.root,
        forall|x: NodeId| #[trigger]
            d.tree.nodes.dom().contains(x) ==> match with_children(d, parent, ids, n).tree.nodes[x].parent {
                Some(_) => true,
                None => d.tree.nodes[x].parent is None && !ids.take(n).contains(x),
            },
        forall|i: int|
            n <= i < ids.len() ==> with_children(d, parent, ids, n).tree.nodes[#[trigger] ids[i]].parent is None,
    decreases n,
{
    if n > 0 {
        lemma_children(base, d, parent, ids, n - 1);
        let e = with_children(d, parent, ids, n - 1);
        let child = ids[n - 1];
        assert(is_loose(base, d, child));
        lemma_hung_sprouts(base, e, parent, child);
        let r = with_children(d, parent, ids, n);
        assert forall|i: int| n <= i < ids.len() implies r.tree.nodes[#[trigger] ids[i]].parent is None by {
            assert(ids[n - 1].0 < ids[i].0);
        }
        lemma_hung_parent(e, parent, child);
        assert forall|x: NodeId| #[trigger] d.tree.nodes.dom().contains(x) implies match r.tree.nodes[x].parent {
            Some(_) => true,
            None => d.tree.nodes[x].parent is None && !ids.take(n).contains(x),
        } by {
            assert(e.tree.nodes.dom().contains(x));
            if x != child {
                assert(r.tree.nodes[x].parent == e.tree.nodes[x].parent);
                if ids.take(n).contains(x) {
                    let k = choose|k: int| 0 <= k < ids.take(n).len() && ids.take(n)[k] == x;
                    assert(ids.take(n - 1)[k] == x);
                }
            }
        }
    } else {
        assert(ids.take(0) =~= Seq::<NodeId>::empty());
        assert forall|i: int| 0 <= i < ids.len() implies d.tree.nodes[#[trigger] ids[i]].parent is None by {
            assert(is_loose(base, d, ids[i]));
        }
    }
}

proof fn lemma_item(d: DocModel, ids: Seq<NodeId>, item: ValueModel, place: i64, n: int)
    requires
        plain(d),
    ensures
        plain(with_item(d, ids, item, place, n)),
        same_nodes(d, with_item(d, ids, item, place, n)),
    decreases n,
{
    if n > 0 {
        lemma_item(d, ids, item, place, n - 1);
        let a = with_item(d, ids, item, place, n - 1);
        let m = MutationModel::SetProp { id: ids[n - 1], key: "item"@, value: item };
        lemma_set(a, m);
        lemma_set(
            sys(a, m),
            MutationModel::SetProp { id: ids[n - 1], key: "index"@, value: ValueModel::Int(place) },
        );
    }
}

/// What a resolution that goes on from `d` keeps, where `base` is older.
spec fn made(base: DocModel, d: DocModel, r: (Seq<NodeId>, DocModel)) -> bool {
    plain(r.1) && rooted_in(d, r.1) && only_younger(d, r.1) && loose(base, r.1, r.0) && all_loose(base, r.1, r.0)
}

proof fn lemma_emitted(w: World, id: NodeId, n: nat, d: DocModel)
    requires
        plain(d),
    ensures
        emitted(w, id, n, d) matches Some(r) ==> made(d, d, r),
    decreases n, 0int, 0int,
{
    if w.tree.nodes.dom().contains(id) && n > 0 {
        let node = w.tree.nodes[id];
        let m = (n - 1) as nat;
        if node.kind == "If"@ {
            match bound_at(w, node, "cond"@) {
                Outcome::Is(ValueModel::Bool(true)) => {
                    lemma_spliced(w, node.children, 0, m, d, d, Seq::empty());
                },
                _ => {},
            }
        } else if node.kind == "For"@ {
            match bound_at(w, node, "items"@) {
                Outcome::Is(ValueModel::List(items)) => {
                    lemma_listed(w, node.children, items, 0, m, d, d, Seq::empty());
                },
                Outcome::Is(ValueModel::Int(k)) => {
                    if k > 0 {
                        lemma_repeated(w, node.children, k as usize as nat, m, d, d, Seq::empty());
                    }
                },
                _ => {},
            }
        } else if d.next_id != u64::MAX {
            let new_id = NodeId(d.next_id);
            lemma_created(d, node.kind);
            let np = in_order(node.props.dom()).len() as int;
            let nb = in_order(node.bindings.dom()).len() as int;
            let nc = in_order(node.callbacks.dom()).len() as int;
            let d0 = created(d, node.kind);
            lemma_props(d0, new_id, node.props, np);
            let d1 = with_props(d0, new_id, node.props, np);
            lemma_bound(w, d1, new_id, node.bindings, nb);
            match with_bound(w, d1, new_id, node.bindings, nb) {
                Some(d2) => {
                    lemma_callbacks(d2, new_id, node.callbacks, nc);
                    let d3 = with_callbacks(d2, new_id, node.callbacks, nc);
                    lemma_appended(w, node.children, 0, new_id, m, d3);
                    match appended(w, node.children, 0, new_id, m, d3) {
                        Some(d4) => {
                            assert(d4.tree.nodes[new_id].parent == d3.tree.nodes[new_id].parent);
                            assert(d3.tree.nodes[new_id].parent == d2.tree.nodes[new_id].parent);
                            assert(d2.tree.nodes[new_id].parent == d1.tree.nodes[new_id].parent);
                            assert(d1.tree.nodes[new_id].parent == d0.tree.nodes[new_id].parent);
                            assert(is_loose(d, d4, new_id));
                            assert(rooted_in(d0, d4));
                            assert(rooted_in(d, d4));
                            assert(only_younger(d, d4));
                            assert forall|x: NodeId| #[trigger]
                                d4.tree.nodes.dom().contains(x) && d.next_id <= x.0 && d4.tree.nodes[x].parent
                                    is None implies seq![new_id].contains(x) by {
                                assert(x.0 < d3.next_id);
                                assert(seq![new_id][0] == new_id);
                            }
                        },
                        None => {},
                    }
                },
                None => {},
            }
        }
    }
}

proof fn lemma_spliced(w: World, kids: Seq<NodeId>, i: int, n: nat, base: DocModel, d: DocModel, acc: Seq<NodeId>)
    requires
        plain(d),
        rooted_in(base, d),
        loose(base, d, acc),
        all_loose(base, d, acc),
    ensures
        spliced(w, kids, i, n, d, acc) matches Some(r) ==> made(base, d, r),
    decreases n, 1int, kids.len() - i,
{
    if 0 <= i < kids.len() {
        lemma_emitted(w, kids[i], n, d);
        match emitted(w, kids[i], n, d) {
            Some((ids, e)) => {
                lemma_loose_on(base, d, e, acc, ids);
                lemma_all_loose_on(base, d, e, acc, ids);
                lemma_spliced(w, kids, i + 1, n, base, e, acc + ids);
            },
            None => {},
        }
    }
}

proof fn lemma_repeated(w: World, kids: Seq<NodeId>, k: nat, n: nat, base: DocModel, d: DocModel, acc: Seq<NodeId>)
    requires
        plain(d),
        rooted_in(base, d),
        loose(base, d, acc),
        all_loose(base, d, acc),
    ensures
        repeated(w, kids, k, n, d, acc) matches Some(r) ==> made(base, d, r),
    decreases n, 2int, k,
{
    if k > 0 {
        lemma_spliced(w, kids, 0, n, base, d, acc);
        match spliced(w, kids, 0, n, d, acc) {
            Some((ids, e)) => {
                lemma_repeated(w, kids, (k - 1) as nat, n, base, e, ids);
            },
            None => {},
        }
    }
}

proof fn lemma_itemized(
    w: World,
    kids: Seq<NodeId>,
    j: int,
    item: ValueModel,
    place: i64,
    n: nat,
    base: DocModel,
    d: DocModel,
    acc: Seq<NodeId>,
)
    requires
        plain(d),
        rooted_in(base, d),
        loose(base, d, acc),
        all_loose(base, d, acc),
    ensures
        itemized(w, kids, j, item, place, n, d, acc) matches Some(r) ==> made(base, d, r),
    decreases n, 1int, kids.len() - j,
{
    if 0 <= j < kids.len() {
        lemma_emitted(w, kids[j], n, d);
        match emitted(w, kids[j], n, d) {
            Some((ids, e)) => {
                lemma_loose_on(base, d, e, acc, ids);
                lemma_all_loose_on(base, d, e, acc, ids);
                lemma_item(e, ids, item, place, ids.len() as int);
                let f = with_item(e, ids, item, place, ids.len() as int);
                lemma_still_loose(base, e, f, acc + ids);
                lemma_same_loose(base, e, f, acc + ids);
                lemma_itemized(w, kids, j + 1, item, place, n, base, f, acc + ids);
            },
            None => {},
        }
    }
}

proof fn lemma_listed(
    w: World,
    kids: Seq<NodeId>,
    items: Seq<ValueModel>,
    i: int,
    n: nat,
    base: DocModel,
    d: DocModel,
    acc: Seq<NodeId>,
)
    requires
        plain(d),
        rooted_in(base, d),
        loose(base, d, acc),
        all_loose(base, d, acc),
    ensures
        listed(w, kids, items, i, n, d, acc) matches Some(r) ==> made(base, d, r),
    decreases n, 2int, items.len() - i,
{
    if 0 <= i < items.len() {
        lemma_itemized(w, kids, 0, items[i], i as i64, n, base, d, acc);
        match itemized(w, kids, 0, items[i], i as i64, n, d, acc) {
            Some((ids, e)) => {
                lemma_listed(w, kids, items, i + 1, n, base, e, ids);
            },
            None => {},
        }
    }
}

proof fn lemma_appended(w: World, kids: Seq<NodeId>, i: int, parent: NodeId, n: nat, d: DocModel)
    requires
        plain(d),
        d.tree.nodes.dom().contains(parent),
    ensures
        appended(w, kids, i, parent, n, d) matches Some(r) ==> plain(r) && rooted_in(d, r) && only_younger(d, r)
            && all_loose(d, r, Seq::empty()),
    decreases n, 1int, kids.len() - i,
{
    if 0 <= i < kids.len() {
        lemma_emitted(w, kids[i], n, d);
        match emitted(w, kids[i], n, d) {
            Some((ids, e)) => {
                assert forall|k: int| 0 <= k < ids.len() implies parent.0 < (#[trigger] ids[k]).0 by {
                    assert(is_loose(d, e, ids[k]));
                }
                lemma_children(d, e, parent, ids, ids.len() as int);
                let f = with_children(e, parent, ids, ids.len() as int);
                assert(ids.take(ids.len() as int) =~= ids);
                lemma_appended(w, kids, i + 1, parent, n, f);
                match appended(w, kids, i + 1, parent, n, f) {
                    Some(r) => {
                        assert forall|x: NodeId| #[trigger]
                            r.tree.nodes.dom().contains(x) && d.next_id <= x.0 && r.tree.nodes[x].parent
                                is None implies Seq::<NodeId>::empty().contains(x) by {
                            if x.0 < f.next_id {
                                assert(f.tree.nodes.dom().contains(x));
                                assert(e.tree.nodes.dom().contains(x));
                                assert(r.tree.nodes[x].parent == f.tree.nodes[x].parent);
                            }
                        }
                        assert forall|x: NodeId| #[trigger]
                            r.tree.nodes.dom().contains(x) && x.0 < d.next_id implies d.tree.nodes.dom().contains(x) by {
                            assert(f.tree.nodes.dom().contains(x));
                            assert(e.tree.nodes.dom().contains(x));
                        }
                    },
                    None => {},
                }
            },
            None => {},
        }
    }
}

proof fn lemma_resolved(w: World)
    requires
        resolvable(w),
    ensures
        plain(resolved(w)),
        forall|x: NodeId| #[trigger]
            resolved(w).tree.nodes.dom().contains(x) && resolved(w).tree.nodes[x].parent is None ==> resolved(
                w,
            ).tree.root == Some(x),
{
    let n: u64 = choose|n: u64| resolved_at(w, n as nat) is Some;
    let none = empty_doc();
    lemma_empty_sprouting();
    match w.tree.root {
        Some(root) => {
            lemma_emitted(w, root, n as nat, none);
            let (ids, d) = emitted(w, root, n as nat, none)->0;
            if ids.len() > 0 {
                assert(is_loose(none, d, ids[0]));
                let m = MutationModel::SetRoot { id: ids[0] };
                let e = sys(d, m);
                lemma_set(d, m);
                lemma_still_loose(none, d, e, ids);
                let rest = ids.skip(1);
                assert forall|i: int| 0 <= i < rest.len() implies is_loose(none, e, #[trigger] rest[i]) && ids[0].0
                    < rest[i].0 by {
                    assert(rest[i] == ids[i + 1]);
                    assert(is_loose(none, e, ids[i + 1]));
                }
                assert forall|i: int, j: int| 0 <= i < j < rest.len() implies (#[trigger] rest[i]).0 < (
                #[trigger] rest[j]).0 by {
                    assert(ids[i + 1].0 < ids[j + 1].0);
                }
                lemma_children(none, e, ids[0], rest, ids.len() - 1);
                lemma_same_loose(none, d, e, ids);
                let r = resolved(w);
                assert(rest.take(ids.len() - 1) =~= rest);
                assert forall|x: NodeId| #[trigger]
                    r.tree.nodes.dom().contains(x) && r.tree.nodes[x].parent is None implies r.tree.root == Some(x) by {
                    assert(e.tree.nodes.dom().contains(x));
                    assert(ids.contains(x));
                    let k = choose|k: int| 0 <= k < ids.len() && ids[k] == x;
                    if k > 0 {
                        assert(rest[k - 1] == x);
                    }
                }
            } else {
                assert forall|x: NodeId| #[trigger] d.tree.nodes.dom().contains(x) implies d.tree.nodes[x].parent
                    is Some by {
                    if d.tree.nodes[x].parent is None {
                        assert(ids.contains(x));
                    }
                }
            }
        },
        None => {},
    }
}

proof fn lemma_hangs(t: Tree, x: NodeId)
    requires
        wired(t),
        t.nodes.dom().contains(x),
        forall|y: NodeId| #[trigger] t.nodes.dom().contains(y) && t.nodes[y].parent is None ==> t.root == Some(y),
    ensures
        t.root is Some,
        above(t, t.root->0, x),
    decreases x.0,
{
    match t.nodes[x].parent {
        Some(p) => {
            lemma_hangs(t, p);
            let k = choose|k: nat| #[trigger] ancestor(t, p, k) == Some(t.root->0);
            assert(ancestor(t, x, 0) == Some(x));
            assert(ancestor(t, x, 1) == Some(p)) by {
                reveal_with_fuel(ancestor, 2);
            }
            lemma_ancestor_add(t, x, 1, k);
            assert(ancestor(t, x, 1 + k) == Some(t.root->0));
        },
        None => {
            assert(ancestor(t, x, 0) == Some(x));
        },
    }
}

/// A resolved document is one tree: every node in it is the root or lies below it, so that all of
/// it is laid out.
pub proof fn law_resolved_is_one_tree(w: World)
    requires
        resolvable(w),
    ensures
        forall|x: NodeId| #[trigger]
            resolved(w).tree.nodes.dom().contains(x) ==> resolved(w).tree.root is Some && above(
                resolved(w).tree,
                resolved(w).tree.root->0,
                x,
            ),
{
    lemma_resolved(w);
    let t = resolved(w).tree;
    assert forall|x: NodeId| #[trigger] t.nodes.dom().contains(x) implies t.root is Some && above(t, t.root->0, x) by {
        lemma_hangs(t, x);
    }
}

/// A resolved document is plain: no node in it carries a binding, and none is an `If` or a `For`.
pub proof fn law_resolved_is_literal(w: World)
    requires
        resolvable(w),
    ensures
        literal(resolved(w)),
{
    lemma_resolved(w);
}

/// A resolved document is ready for layout, whatever the authored one was like: its links agree,
/// and it can be walked down and up.
pub proof fn law_resolved_is_orderly(w: World)
    requires
        resolvable(w),
    ensures
        orderly(resolved(w)),
{
    lemma_resolved(w);
    lemma_sprouting_orderly(resolved(w));
}

} // verus!
