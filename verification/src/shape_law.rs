//! What interface an authored document resolves to, apart from the ids that its nodes get.
use vstd::prelude::*;

use crate::expr::{bound, Outcome};
use crate::grow_law::{
    alike, lemma_callback_exact, lemma_created_exact, lemma_hung_exact, lemma_prop_exact, touched,
};
use crate::ir::{empty_doc, finite_tree, DocModel, MutationModel, Tree};
use crate::lowering::{created, sys};
use crate::lowering_law::{lemma_empty_sprouting, lemma_set_sprouts, sprouting};
use crate::node::{NodeId, NodeModel};
use crate::resolve::{
    appended, emitted, itemized, listed, repeated, resolved_at, spliced, with_bound, with_callbacks, with_children,
    with_item, with_props, World,
};
use crate::text::{in_order, lemma_finite_in_order};
use crate::value::{ActionModel, ValueModel};

verus! {

/// A piece of an interface: a node without its id, with the pieces under it.
pub struct Shape {
    pub kind: Seq<char>,
    pub props: Map<Seq<char>, ValueModel>,
    pub callbacks: Map<Seq<char>, ActionModel>,
    pub children: Seq<Shape>,
}

/// What an expression on a node comes to in the state; nothing where the node has none.
pub open spec fn meant(w: World, node: NodeModel, key: Seq<char>) -> Outcome {
    if node.bindings.dom().contains(key) {
        bound(node.bindings[key], w.state, w.fl)
    } else {
        Outcome::Nothing
    }
}

/// The properties of a node in a state: its own, with the values of its bindings over them where
/// they have one.
pub open spec fn overlaid(w: World, node: NodeModel) -> Map<Seq<char>, ValueModel> {
    Map::new(
        |k: Seq<char>| node.props.dom().contains(k) || meant(w, node, k) is Is,
        |k: Seq<char>|
            match meant(w, node, k) {
                Outcome::Is(v) => v,
                _ => node.props[k],
            },
    )
}

/// So many copies of a row, one after the other.
pub open spec fn copies(s: Seq<Shape>, k: nat) -> Seq<Shape>
    decreases k,
{
    if k == 0 {
        Seq::empty()
    } else {
        s + copies(s, (k - 1) as nat)
    }
}

/// A row with an item and its place on each piece of it.
pub open spec fn tagged(s: Seq<Shape>, item: ValueModel, at: i64) -> Seq<Shape> {
    s.map_values(
        |x: Shape| Shape { props: x.props.insert("item"@, item).insert("index"@, ValueModel::Int(at)), ..x },
    )
}

/// One row for each item from the `i`-th on, with the item on it.
pub open spec fn for_each(s: Seq<Shape>, items: Seq<ValueModel>, i: int) -> Seq<Shape>
    decreases items.len() - i,
{
    if i < 0 || i >= items.len() {
        Seq::empty()
    } else {
        tagged(s, items[i], i as i64) + for_each(s, items, i + 1)
    }
}

/// The pieces that an authored node stands for: a condition stands for its children where it holds
/// and for nothing where it does not, a repetition for its children as often as it says, or once
/// for each item with the item on them, and any other node for one piece with what it holds.
pub open spec fn pieces(w: World, id: NodeId, n: nat) -> Seq<Shape>
    decreases n, 0int, 0int,
{
    if !w.tree.nodes.dom().contains(id) || n == 0 {
        Seq::empty()
    } else {
        let node = w.tree.nodes[id];
        let inner = row(w, node.children, 0, (n - 1) as nat);
        if node.kind == "If"@ {
            if meant(w, node, "cond"@) == Outcome::Is(ValueModel::Bool(true)) {
                inner
            } else {
                Seq::empty()
            }
        } else if node.kind == "For"@ {
            match meant(w, node, "items"@) {
                Outcome::Is(ValueModel::Int(k)) => copies(
                    inner,
                    if k > 0 {
                        k as usize as nat
                    } else {
                        0
                    },
                ),
                Outcome::Is(ValueModel::List(items)) => for_each(inner, items, 0),
                _ => Seq::empty(),
            }
        } else {
            seq![
                Shape {
                    kind: node.kind,
                    props: overlaid(w, node),
                    callbacks: node.callbacks,
                    children: inner,
                },
            ]
        }
    }
}

/// The pieces that a row of authored nodes from the `i`-th on stands for.
pub open spec fn row(w: World, kids: Seq<NodeId>, i: int, n: nat) -> Seq<Shape>
    decreases n, 1int, kids.len() - i,
{
    if i < 0 || i >= kids.len() {
        Seq::empty()
    } else {
        pieces(w, kids[i], n) + row(w, kids, i + 1, n)
    }
}

/// The node is the piece, and the nodes under it, younger than it and older than `end`, are the
/// pieces under the piece, in their order.
pub open spec fn is_piece(t: Tree, id: NodeId, s: Shape, end: int) -> bool
    decreases s,
{
    let x = t.nodes[id];
    &&& t.nodes.dom().contains(id)
    &&& id.0 < end
    &&& x.kind == s.kind
    &&& x.props == s.props
    &&& x.callbacks == s.callbacks
    &&& x.children.len() == s.children.len()
    &&& forall|i: int| 0 <= i < s.children.len() ==> id.0 < (#[trigger] x.children[i]).0
    &&& forall|i: int| 0 <= i < s.children.len() ==> is_piece(t, x.children[i], #[trigger] s.children[i], end)
}

/// The nodes with ids from `from` on and before `end` are the same, but for where they hang.
spec fn unmoved(a: Tree, b: Tree, from: int, end: int) -> bool {
    forall|x: NodeId| #[trigger]
        a.nodes.dom().contains(x) && from <= x.0 < end ==> b.nodes.dom().contains(x) && alike(
            a.nodes[x],
            b.nodes[x],
        )
}

proof fn lemma_piece(a: Tree, b: Tree, id: NodeId, s: Shape, end: int, later: int)
    requires
        is_piece(a, id, s, end),
        unmoved(a, b, id.0 as int, end),
        end <= later,
    ensures
        is_piece(b, id, s, later),
    decreases s,
{
    assert(alike(a.nodes[id], b.nodes[id]));
    assert forall|i: int| 0 <= i < s.children.len() implies is_piece(
        b,
        b.nodes[id].children[i],
        #[trigger] s.children[i],
        later,
    ) by {
        let c = a.nodes[id].children[i];
        assert(is_piece(a, c, s.children[i], end));
        assert(id.0 < c.0);
        assert(unmoved(a, b, c.0 as int, end));
        lemma_piece(a, b, c, s.children[i], end, later);
    }
}

/// The nodes of the earlier document are in the later one as they were.
spec fn added(a: DocModel, b: DocModel) -> bool {
    &&& a.next_id <= b.next_id
    &&& a.tree.root == b.tree.root
    &&& forall|x: NodeId| #[trigger]
        a.tree.nodes.dom().contains(x) ==> b.tree.nodes.dom().contains(x) && b.tree.nodes[x] == a.tree.nodes[x]
}

/// Where the nodes of the `i`-th of a row of pieces end.
spec fn end_of(d: DocModel, ids: Seq<NodeId>, i: int) -> int {
    if i + 1 < ids.len() {
        ids[i + 1].0 as int
    } else {
        d.next_id as int
    }
}

/// The nodes, all as young as `base`, are a row of pieces that hang nowhere yet, each older than the
/// next.
spec fn pile(base: int, d: DocModel, ids: Seq<NodeId>, ss: Seq<Shape>) -> bool {
    &&& ids.len() == ss.len()
    &&& forall|i: int| 0 <= i < ids.len() ==> base <= (#[trigger] ids[i]).0 < d.next_id
    &&& forall|i: int, j: int| 0 <= i < j < ids.len() ==> (#[trigger] ids[i]).0 < (#[trigger] ids[j]).0
    &&& forall|i: int| 0 <= i < ids.len() ==> d.tree.nodes[#[trigger] ids[i]].parent is None
    &&& forall|i: int| 0 <= i < ids.len() ==> is_piece(d.tree, ids[i], #[trigger] ss[i], end_of(d, ids, i))
}

/// A row of pieces goes on with another that was made after it.
proof fn lemma_pile_on(
    base: int,
    d: DocModel,
    e: DocModel,
    acc: Seq<NodeId>,
    done: Seq<Shape>,
    ids: Seq<NodeId>,
    ss: Seq<Shape>,
)
    requires
        added(d, e),
        base <= d.next_id,
        pile(base, d, acc, done),
        pile(d.next_id as int, e, ids, ss),
    ensures
        pile(base, e, acc + ids, done + ss),
{
    let all = acc + ids;
    let out = done + ss;
    assert forall|i: int| 0 <= i < all.len() implies base <= (#[trigger] all[i]).0 < e.next_id by {
        if i < acc.len() {
            assert(all[i] == acc[i]);
        } else {
            assert(all[i] == ids[i - acc.len()]);
        }
    }
    assert forall|i: int, j: int| 0 <= i < j < all.len() implies (#[trigger] all[i]).0 < (#[trigger] all[j]).0 by {
        if j < acc.len() {
            assert(all[i] == acc[i] && all[j] == acc[j]);
        } else if i < acc.len() {
            assert(all[i] == acc[i] && all[j] == ids[j - acc.len()]);
        } else {
            assert(all[i] == ids[i - acc.len()] && all[j] == ids[j - acc.len()]);
        }
    }
    assert forall|i: int| 0 <= i < all.len() implies e.tree.nodes[#[trigger] all[i]].parent is None by {
        if i < acc.len() {
            assert(all[i] == acc[i]);
            assert(is_piece(d.tree, acc[i], done[i], end_of(d, acc, i)));
        } else {
            assert(all[i] == ids[i - acc.len()]);
        }
    }
    assert forall|i: int| 0 <= i < all.len() implies is_piece(e.tree, all[i], #[trigger] out[i], end_of(e, all, i)) by {
        if i < acc.len() {
            assert(all[i] == acc[i] && out[i] == done[i]);
            let end = end_of(d, acc, i);
            assert(is_piece(d.tree, acc[i], done[i], end));
            assert(end <= end_of(e, all, i)) by {
                if i + 1 < acc.len() {
                    assert(all[i + 1] == acc[i + 1]);
                } else if i + 1 < all.len() {
                    assert(all[i + 1] == ids[0]);
                }
            }
            assert(unmoved(d.tree, e.tree, acc[i].0 as int, end));
            lemma_piece(d.tree, e.tree, acc[i], done[i], end, end_of(e, all, i));
        } else {
            let k = i - acc.len();
            assert(all[i] == ids[k] && out[i] == ss[k]);
            assert(is_piece(e.tree, ids[k], ss[k], end_of(e, ids, k)));
            if k + 1 < ids.len() {
                assert(all[i + 1] == ids[k + 1]);
            }
        }
    }
}

proof fn lemma_props(d: DocModel, id: NodeId, props: Map<Seq<char>, ValueModel>, n: int)
    requires
        sprouting(d),
        d.tree.nodes.dom().contains(id),
        0 <= n <= in_order(props.dom()).len(),
        d.tree.nodes[id].props == Map::<Seq<char>, ValueModel>::empty(),
    ensures
        ({
            let r = with_props(d, id, props, n);
            let m = r.tree.nodes[id];
            &&& sprouting(r)
            &&& touched(d, r, id)
            &&& r.next_id == d.next_id
            &&& m == (NodeModel { props: m.props, ..d.tree.nodes[id] })
            &&& forall|k: Seq<char>| #[trigger]
                m.props.dom().contains(k) <==> in_order(props.dom()).take(n).contains(k)
            &&& forall|k: Seq<char>| #[trigger] m.props.dom().contains(k) ==> m.props[k] == props[k]
        }),
    decreases n,
{
    let ks = in_order(props.dom());
    if n > 0 {
        lemma_props(d, id, props, n - 1);
        let k = ks[n - 1];
        lemma_prop_exact(with_props(d, id, props, n - 1), id, k, props[k]);
        lemma_one_more(ks, n);
    } else {
        assert(ks.take(0) =~= Seq::<Seq<char>>::empty());
    }
}

proof fn lemma_one_more(ks: Seq<Seq<char>>, n: int)
    requires
        0 < n <= ks.len(),
    ensures
        forall|k: Seq<char>| #[trigger] ks.take(n).contains(k) <==> ks.take(n - 1).contains(k) || k == ks[n - 1],
{
    let a = ks.take(n - 1);
    let b = ks.take(n);
    assert forall|k: Seq<char>| #[trigger] b.contains(k) <==> a.contains(k) || k == ks[n - 1] by {
        if b.contains(k) && k != ks[n - 1] {
            let i = choose|i: int| 0 <= i < b.len() && b[i] == k;
            assert(a[i] == k);
        }
        if a.contains(k) {
            let i = choose|i: int| 0 <= i < a.len() && a[i] == k;
            assert(b[i] == k);
        }
        assert(b[n - 1] == ks[n - 1]);
    }
}

proof fn lemma_callbacks(d: DocModel, id: NodeId, cs: Map<Seq<char>, ActionModel>, n: int)
    requires
        sprouting(d),
        d.tree.nodes.dom().contains(id),
        0 <= n <= in_order(cs.dom()).len(),
        d.tree.nodes[id].callbacks == Map::<Seq<char>, ActionModel>::empty(),
    ensures
        ({
            let r = with_callbacks(d, id, cs, n);
            let m = r.tree.nodes[id];
            &&& sprouting(r)
            &&& touched(d, r, id)
            &&& r.next_id == d.next_id
            &&& m == (NodeModel { callbacks: m.callbacks, ..d.tree.nodes[id] })
            &&& forall|k: Seq<char>| #[trigger]
                m.callbacks.dom().contains(k) <==> in_order(cs.dom()).take(n).contains(k)
            &&& forall|k: Seq<char>| #[trigger] m.callbacks.dom().contains(k) ==> m.callbacks[k] == cs[k]
        }),
    decreases n,
{
    let ks = in_order(cs.dom());
    if n > 0 {
        lemma_callbacks(d, id, cs, n - 1);
        let k = ks[n - 1];
        lemma_callback_exact(with_callbacks(d, id, cs, n - 1), id, k, cs[k]);
        lemma_one_more(ks, n);
    } else {
        assert(ks.take(0) =~= Seq::<Seq<char>>::empty());
    }
}

proof fn lemma_bound(w: World, d: DocModel, id: NodeId, bs: Map<Seq<char>, Seq<char>>, n: int)
    requires
        sprouting(d),
        d.tree.nodes.dom().contains(id),
        0 <= n <= in_order(bs.dom()).len(),
    ensures
        with_bound(w, d, id, bs, n) matches Some(r) ==> {
            let x = d.tree.nodes[id];
            let m = r.tree.nodes[id];
            let ks = in_order(bs.dom()).take(n);
            &&& sprouting(r)
            &&& touched(d, r, id)
            &&& r.next_id == d.next_id
            &&& m == (NodeModel { props: m.props, ..x })
            &&& forall|k: Seq<char>| #[trigger]
                m.props.dom().contains(k) <==> x.props.dom().contains(k) || (ks.contains(k) && bound(
                    bs[k],
                    w.state,
                    w.fl,
                ) is Is)
            &&& forall|k: Seq<char>| #[trigger]
                m.props.dom().contains(k) ==> m.props[k] == if ks.contains(k) && bound(bs[k], w.state, w.fl) is Is {
                    bound(bs[k], w.state, w.fl)->Is_0
                } else {
                    x.props[k]
                }
        },
    decreases n,
{
    let ks = in_order(bs.dom());
    if n > 0 {
        lemma_bound(w, d, id, bs, n - 1);
        lemma_one_more(ks, n);
        let k = ks[n - 1];
        if let Some(e) = with_bound(w, d, id, bs, n - 1) {
            if let Outcome::Is(v) = bound(bs[k], w.state, w.fl) {
                lemma_prop_exact(e, id, k, v);
            }
        }
    } else {
        assert(ks.take(0) =~= Seq::<Seq<char>>::empty());
    }
}

proof fn lemma_hang(
    base: int,
    d: DocModel,
    parent: NodeId,
    kids: Seq<NodeId>,
    done: Seq<Shape>,
    ids: Seq<NodeId>,
    ss: Seq<Shape>,
    n: int,
)
    requires
        sprouting(d),
        d.tree.nodes.dom().contains(parent),
        d.tree.nodes[parent].children == kids,
        parent.0 < base,
        hanging(d, parent, kids, done),
        pile(base, d, ids, ss),
        forall|k: int| 0 <= k < kids.len() ==> (#[trigger] kids[k]).0 < base,
        forall|k: int| 0 <= k < kids.len() ==> is_piece(d.tree, kids[k], #[trigger] done[k], base),
        0 <= n <= ids.len(),
    ensures
        ({
            let r = with_children(d, parent, ids, n);
            &&& sprouting(r)
            &&& r.next_id == d.next_id
            &&& r.tree.root == d.tree.root
            &&& r.tree.nodes.dom() == d.tree.nodes.dom()
            &&& r.tree.nodes[parent] == (NodeModel { children: kids + ids.take(n), ..d.tree.nodes[parent] })
            &&& forall|x: NodeId| #[trigger]
                d.tree.nodes.dom().contains(x) && x != parent ==> alike(d.tree.nodes[x], r.tree.nodes[x])
            &&& forall|x: NodeId| #[trigger]
                d.tree.nodes.dom().contains(x) && x != parent && !ids.take(n).contains(x) ==> r.tree.nodes[x]
                    == d.tree.nodes[x]
            &&& hanging(r, parent, kids + ids.take(n), done + ss.take(n))
        }),
    decreases n,
{
    if n > 0 {
        lemma_hang(base, d, parent, kids, done, ids, ss, n - 1);
        let a = with_children(d, parent, ids, n - 1);
        let child = ids[n - 1];
        let before = ids.take(n - 1);
        let now = ids.take(n);
        assert(now =~= before.push(child));
        assert(!before.contains(child)) by {
            if before.contains(child) {
                let k = choose|k: int| 0 <= k < before.len() && before[k] == child;
                assert(ids[k].0 < ids[n - 1].0);
            }
        }
        assert(is_piece(d.tree, ids[n - 1], ss[n - 1], end_of(d, ids, n - 1)));
        assert(a.tree.nodes[child] == d.tree.nodes[child]);
        lemma_hung_exact(a, parent, child);
        let r = with_children(d, parent, ids, n);
        assert((kids + before).push(child) =~= kids + now);
        assert forall|x: NodeId| #[trigger] d.tree.nodes.dom().contains(x) && x != parent implies alike(
            d.tree.nodes[x],
            r.tree.nodes[x],
        ) by {
            if x != child {
                assert(r.tree.nodes[x] == a.tree.nodes[x]);
            }
        }
        assert forall|x: NodeId| #[trigger]
            d.tree.nodes.dom().contains(x) && x != parent && !now.contains(x) implies r.tree.nodes[x]
            == d.tree.nodes[x] by {
            assert(now[n - 1] == child);
            if before.contains(x) {
                let k = choose|k: int| 0 <= k < before.len() && before[k] == x;
                assert(now[k] == x);
            }
            assert(r.tree.nodes[x] == a.tree.nodes[x]);
        }
    } else {
        assert(ids.take(0) =~= Seq::<NodeId>::empty());
        assert(ss.take(0) =~= Seq::<Shape>::empty());
        assert(kids + ids.take(0) =~= kids);
        assert(done + ss.take(0) =~= done);
    }
    let r = with_children(d, parent, ids, n);
    let all = kids + ids.take(n);
    let out = done + ss.take(n);
    assert(hanging(r, parent, all, out)) by {
        assert forall|k: int| 0 <= k < all.len() implies parent.0 < (#[trigger] all[k]).0 by {
            if k < kids.len() {
                assert(all[k] == kids[k]);
            } else {
                assert(all[k] == ids[k - kids.len()]);
            }
        }
        assert forall|k: int| 0 <= k < all.len() implies is_piece(
            r.tree,
            all[k],
            #[trigger] out[k],
            r.next_id as int,
        ) by {
            let (x, s, end) = if k < kids.len() {
                (kids[k], done[k], d.next_id as int)
            } else {
                (ids[k - kids.len()], ss[k - kids.len()], end_of(d, ids, k - kids.len()))
            };
            assert(all[k] == x && out[k] == s);
            assert(is_piece(d.tree, x, s, end));
            assert(unmoved(d.tree, r.tree, x.0 as int, end)) by {
                assert(parent.0 < x.0);
            }
            lemma_piece(d.tree, r.tree, x, s, end, r.next_id as int);
        }
    }
}

/// The children of a node are a row of pieces.
spec fn hanging(d: DocModel, parent: NodeId, kids: Seq<NodeId>, done: Seq<Shape>) -> bool {
    &&& kids.len() == done.len()
    &&& forall|k: int| 0 <= k < kids.len() ==> parent.0 < (#[trigger] kids[k]).0
    &&& forall|k: int| 0 <= k < kids.len() ==> is_piece(d.tree, kids[k], #[trigger] done[k], d.next_id as int)
}

proof fn lemma_item(base: int, d: DocModel, ids: Seq<NodeId>, ss: Seq<Shape>, item: ValueModel, at: i64, n: int)
    requires
        sprouting(d),
        pile(base, d, ids, ss),
        0 <= n <= ids.len(),
    ensures
        ({
            let r = with_item(d, ids, item, at, n);
            &&& sprouting(r)
            &&& r.next_id == d.next_id
            &&& r.tree.root == d.tree.root
            &&& r.tree.nodes.dom() == d.tree.nodes.dom()
            &&& forall|x: NodeId| #[trigger]
                d.tree.nodes.dom().contains(x) && !ids.take(n).contains(x) ==> r.tree.nodes[x] == d.tree.nodes[x]
            &&& forall|k: int|
                0 <= k < n ==> r.tree.nodes[#[trigger] ids[k]] == (NodeModel {
                    props: d.tree.nodes[ids[k]].props.insert("item"@, item).insert("index"@, ValueModel::Int(at)),
                    ..d.tree.nodes[ids[k]]
                })
        }),
    decreases n,
{
    if n > 0 {
        lemma_item(base, d, ids, ss, item, at, n - 1);
        let a = with_item(d, ids, item, at, n - 1);
        let id = ids[n - 1];
        assert(is_piece(d.tree, ids[n - 1], ss[n - 1], end_of(d, ids, n - 1)));
        lemma_prop_exact(a, id, "item"@, item);
        let b = sys(a, MutationModel::SetProp { id, key: "item"@, value: item });
        lemma_prop_exact(b, id, "index"@, ValueModel::Int(at));
        let r = with_item(d, ids, item, at, n);
        let before = ids.take(n - 1);
        let now = ids.take(n);
        assert(now =~= before.push(id));
        assert(!before.contains(id)) by {
            if before.contains(id) {
                let k = choose|k: int| 0 <= k < before.len() && before[k] == id;
                assert(ids[k].0 < ids[n - 1].0);
            }
        }
        assert(b.tree.nodes.dom() =~= a.tree.nodes.dom());
        assert(r.tree.nodes.dom() =~= b.tree.nodes.dom());
        assert forall|x: NodeId| #[trigger]
            d.tree.nodes.dom().contains(x) && !now.contains(x) implies r.tree.nodes[x] == d.tree.nodes[x] by {
            assert(now[n - 1] == id);
            if before.contains(x) {
                let k = choose|k: int| 0 <= k < before.len() && before[k] == x;
                assert(now[k] == x);
            }
            assert(a.tree.nodes.dom().contains(x));
            assert(b.tree.nodes.dom().contains(x));
        }
        assert forall|k: int| 0 <= k < n implies r.tree.nodes[#[trigger] ids[k]] == (NodeModel {
            props: d.tree.nodes[ids[k]].props.insert("item"@, item).insert("index"@, ValueModel::Int(at)),
            ..d.tree.nodes[ids[k]]
        }) by {
            if k < n - 1 {
                assert(ids[k].0 < ids[n - 1].0);
                assert(is_piece(d.tree, ids[k], ss[k], end_of(d, ids, k)));
                assert(a.tree.nodes.dom().contains(ids[k]));
                assert(b.tree.nodes.dom().contains(ids[k]));
            }
        }
    } else {
        assert(ids.take(0) =~= Seq::<NodeId>::empty());
    }
}

proof fn lemma_tagged(base: int, d: DocModel, ids: Seq<NodeId>, ss: Seq<Shape>, item: ValueModel, at: i64)
    requires
        sprouting(d),
        pile(base, d, ids, ss),
    ensures
        ({
            let r = with_item(d, ids, item, at, ids.len() as int);
            &&& sprouting(r)
            &&& r.next_id == d.next_id
            &&& r.tree.root == d.tree.root
            &&& forall|x: NodeId| #[trigger]
                d.tree.nodes.dom().contains(x) && x.0 < base ==> r.tree.nodes.dom().contains(x) && r.tree.nodes[x]
                    == d.tree.nodes[x]
            &&& pile(base, r, ids, tagged(ss, item, at))
        }),
{
    let n = ids.len() as int;
    lemma_item(base, d, ids, ss, item, at, n);
    let r = with_item(d, ids, item, at, n);
    let tt = tagged(ss, item, at);
    assert(ids.take(n) =~= ids);
    assert forall|x: NodeId| #[trigger] d.tree.nodes.dom().contains(x) && x.0 < base implies r.tree.nodes.dom().contains(x)
        && r.tree.nodes[x] == d.tree.nodes[x] by {
        if ids.contains(x) {
            let k = choose|k: int| 0 <= k < ids.len() && ids[k] == x;
            assert(base <= ids[k].0);
        }
    }
    assert forall|i: int| 0 <= i < ids.len() implies r.tree.nodes[#[trigger] ids[i]].parent is None by {}
    assert forall|i: int| 0 <= i < ids.len() implies is_piece(r.tree, ids[i], #[trigger] tt[i], end_of(r, ids, i)) by {
        let id = ids[i];
        let end = end_of(d, ids, i);
        assert(is_piece(d.tree, ids[i], ss[i], end));
        assert(tt[i].children == ss[i].children);
        let x = d.tree.nodes[id];
        assert(r.tree.nodes[id].children == x.children);
        assert forall|j: int| 0 <= j < ss[i].children.len() implies is_piece(
            r.tree,
            x.children[j],
            #[trigger] ss[i].children[j],
            end,
        ) by {
            let c = x.children[j];
            assert(id.0 < c.0);
            assert(is_piece(d.tree, c, ss[i].children[j], end));
            assert(unmoved(d.tree, r.tree, c.0 as int, end)) by {
                assert forall|y: NodeId| #[trigger]
                    d.tree.nodes.dom().contains(y) && c.0 <= y.0 < end implies r.tree.nodes.dom().contains(y)
                    && alike(d.tree.nodes[y], r.tree.nodes[y]) by {
                    if ids.contains(y) {
                        let k = choose|k: int| 0 <= k < ids.len() && ids[k] == y;
                        if k <= i {
                            if k < i {
                                assert(ids[k].0 < ids[i].0);
                            }
                        } else if k > i + 1 {
                            assert(ids[i + 1].0 < ids[k].0);
                        }
                    }
                }
            }
            lemma_piece(d.tree, r.tree, c, ss[i].children[j], end, end);
        }
    }
}

/// What making the pieces of a node comes to.
spec fn done(base: int, d: DocModel, r: (Seq<NodeId>, DocModel), ss: Seq<Shape>) -> bool {
    &&& sprouting(r.1)
    &&& added(d, r.1)
    &&& pile(base, r.1, r.0, ss)
}

proof fn lemma_emitted(w: World, id: NodeId, n: nat, d: DocModel)
    requires
        finite_tree(w.tree),
        sprouting(d),
    ensures
        emitted(w, id, n, d) matches Some(r) ==> done(d.next_id as int, d, r, pieces(w, id, n)),
    decreases n, 0int, 1int,
{
    let base = d.next_id as int;
    if w.tree.nodes.dom().contains(id) && n > 0 {
        let node = w.tree.nodes[id];
        let m = (n - 1) as nat;
        let inner = row(w, node.children, 0, m);
        let none = Seq::<NodeId>::empty();
        let no_shapes = Seq::<Shape>::empty();
        if node.kind == "If"@ {
            if meant(w, node, "cond"@) == Outcome::Is(ValueModel::Bool(true)) {
                lemma_spliced(w, node.children, 0, m, base, d, none, no_shapes);
                assert(no_shapes + inner =~= inner);
            }
        } else if node.kind == "For"@ {
            match meant(w, node, "items"@) {
                Outcome::Is(ValueModel::List(items)) => {
                    lemma_listed(w, node.children, items, 0, m, base, d, none, no_shapes);
                    assert(no_shapes + for_each(inner, items, 0) =~= for_each(inner, items, 0));
                },
                Outcome::Is(ValueModel::Int(k)) => {
                    if k > 0 {
                        lemma_repeated(w, node.children, k as usize as nat, m, base, d, none, no_shapes);
                        assert(no_shapes + copies(inner, k as usize as nat) =~= copies(inner, k as usize as nat));
                    }
                },
                _ => {},
            }
        } else if d.next_id != u64::MAX {
            lemma_one(w, id, n, d);
        }
    }
}

proof fn lemma_one(w: World, id: NodeId, n: nat, d: DocModel)
    requires
        finite_tree(w.tree),
        sprouting(d),
        w.tree.nodes.dom().contains(id),
        n > 0,
        w.tree.nodes[id].kind != "If"@ && w.tree.nodes[id].kind != "For"@,
        d.next_id != u64::MAX,
    ensures
        emitted(w, id, n, d) matches Some(r) ==> done(d.next_id as int, d, r, pieces(w, id, n)),
    decreases n, 0int, 0int,
{
    let node = w.tree.nodes[id];
    let m = (n - 1) as nat;
    let inner = row(w, node.children, 0, m);
    let new_id = NodeId(d.next_id);
    let d0 = created(d, node.kind);
    lemma_created_exact(d, node.kind);
    let kp = in_order(node.props.dom());
    let kb = in_order(node.bindings.dom());
    let kc = in_order(node.callbacks.dom());
    lemma_finite_in_order(node.props.dom());
    lemma_finite_in_order(node.bindings.dom());
    lemma_finite_in_order(node.callbacks.dom());
    lemma_props(d0, new_id, node.props, kp.len() as int);
    let d1 = with_props(d0, new_id, node.props, kp.len() as int);
    assert(kp.take(kp.len() as int) =~= kp);
    assert(d1.tree.nodes[new_id].props =~= node.props) by {
        assert forall|k: Seq<char>| #[trigger]
            d1.tree.nodes[new_id].props.dom().contains(k) <==> node.props.dom().contains(k) by {
            assert(kp.to_set().contains(k) <==> kp.contains(k));
        }
    }
    lemma_bound(w, d1, new_id, node.bindings, kb.len() as int);
    if let Some(d2) = with_bound(w, d1, new_id, node.bindings, kb.len() as int) {
        assert(kb.take(kb.len() as int) =~= kb);
        assert(d2.tree.nodes[new_id].props =~= overlaid(w, node)) by {
            assert forall|k: Seq<char>| #[trigger]
                d2.tree.nodes[new_id].props.dom().contains(k) <==> overlaid(w, node).dom().contains(k) by {
                assert(kb.to_set().contains(k) <==> kb.contains(k));
            }
            assert forall|k: Seq<char>| #[trigger]
                d2.tree.nodes[new_id].props.dom().contains(k) implies d2.tree.nodes[new_id].props[k] == overlaid(
                w,
                node,
            )[k] by {
                assert(kb.to_set().contains(k) <==> kb.contains(k));
            }
        }
        lemma_callbacks(d2, new_id, node.callbacks, kc.len() as int);
        let d3 = with_callbacks(d2, new_id, node.callbacks, kc.len() as int);
        assert(kc.take(kc.len() as int) =~= kc);
        assert(d3.tree.nodes[new_id].callbacks =~= node.callbacks) by {
            assert forall|k: Seq<char>| #[trigger]
                d3.tree.nodes[new_id].callbacks.dom().contains(k) <==> node.callbacks.dom().contains(k) by {
                assert(kc.to_set().contains(k) <==> kc.contains(k));
            }
        }
        assert(d3.tree.nodes[new_id].children =~= Seq::<NodeId>::empty());
        lemma_appended(w, node.children, 0, new_id, m, d3, Seq::empty());
        if let Some(d4) = appended(w, node.children, 0, new_id, m, d3) {
            assert(Seq::<Shape>::empty() + inner =~= inner);
            let s = Shape {
                kind: node.kind,
                props: overlaid(w, node),
                callbacks: node.callbacks,
                children: inner,
            };
            assert(pieces(w, id, n) =~= seq![s]);
            assert(is_piece(d4.tree, new_id, s, d4.next_id as int));
            assert forall|x: NodeId| #[trigger] d.tree.nodes.dom().contains(x) implies d4.tree.nodes.dom().contains(x)
                && d4.tree.nodes[x] == d.tree.nodes[x] by {
                assert(d0.tree.nodes.dom().contains(x) && x != new_id);
                assert(d1.tree.nodes.dom().contains(x));
                assert(d2.tree.nodes.dom().contains(x));
                assert(d3.tree.nodes.dom().contains(x));
            }
            assert(pile(d.next_id as int, d4, seq![new_id], seq![s]));
        }
    }
}

proof fn lemma_spliced(
    w: World,
    kids: Seq<NodeId>,
    i: int,
    n: nat,
    base: int,
    d: DocModel,
    acc: Seq<NodeId>,
    so_far: Seq<Shape>,
)
    requires
        finite_tree(w.tree),
        sprouting(d),
        base <= d.next_id,
        pile(base, d, acc, so_far),
        0 <= i,
    ensures
        spliced(w, kids, i, n, d, acc) matches Some(r) ==> done(base, d, r, so_far + row(w, kids, i, n)),
    decreases n, 1int, kids.len() - i,
{
    if i < kids.len() {
        lemma_emitted(w, kids[i], n, d);
        if let Some((ids, e)) = emitted(w, kids[i], n, d) {
            let ss = pieces(w, kids[i], n);
            lemma_pile_on(base, d, e, acc, so_far, ids, ss);
            lemma_spliced(w, kids, i + 1, n, base, e, acc + ids, so_far + ss);
            assert(so_far + ss + row(w, kids, i + 1, n) =~= so_far + row(w, kids, i, n));
        }
    } else {
        assert(so_far + row(w, kids, i, n) =~= so_far);
    }
}

proof fn lemma_repeated(
    w: World,
    kids: Seq<NodeId>,
    k: nat,
    n: nat,
    base: int,
    d: DocModel,
    acc: Seq<NodeId>,
    so_far: Seq<Shape>,
)
    requires
        finite_tree(w.tree),
        sprouting(d),
        base <= d.next_id,
        pile(base, d, acc, so_far),
    ensures
        repeated(w, kids, k, n, d, acc) matches Some(r) ==> done(
            base,
            d,
            r,
            so_far + copies(row(w, kids, 0, n), k),
        ),
    decreases n, 2int, k,
{
    let inner = row(w, kids, 0, n);
    if k > 0 {
        lemma_spliced(w, kids, 0, n, base, d, acc, so_far);
        if let Some((ids, e)) = spliced(w, kids, 0, n, d, acc) {
            lemma_repeated(w, kids, (k - 1) as nat, n, base, e, ids, so_far + inner);
            assert(so_far + inner + copies(inner, (k - 1) as nat) =~= so_far + copies(inner, k));
        }
    } else {
        assert(so_far + copies(inner, k) =~= so_far);
    }
}

proof fn lemma_tagged_row(w: World, kids: Seq<NodeId>, j: int, n: nat, item: ValueModel, at: i64)
    requires
        0 <= j < kids.len(),
    ensures
        tagged(row(w, kids, j, n), item, at) == tagged(pieces(w, kids[j], n), item, at) + tagged(
            row(w, kids, j + 1, n),
            item,
            at,
        ),
{
    assert(tagged(row(w, kids, j, n), item, at) =~= tagged(pieces(w, kids[j], n), item, at) + tagged(
        row(w, kids, j + 1, n),
        item,
        at,
    ));
}

proof fn lemma_itemized(
    w: World,
    kids: Seq<NodeId>,
    j: int,
    item: ValueModel,
    at: i64,
    n: nat,
    base: int,
    d: DocModel,
    acc: Seq<NodeId>,
    so_far: Seq<Shape>,
)
    requires
        finite_tree(w.tree),
        sprouting(d),
        base <= d.next_id,
        pile(base, d, acc, so_far),
        0 <= j,
    ensures
        itemized(w, kids, j, item, at, n, d, acc) matches Some(r) ==> done(
            base,
            d,
            r,
            so_far + tagged(row(w, kids, j, n), item, at),
        ),
    decreases n, 1int, kids.len() - j,
{
    if j < kids.len() {
        lemma_emitted(w, kids[j], n, d);
        if let Some((ids, e)) = emitted(w, kids[j], n, d) {
            let ss = pieces(w, kids[j], n);
            lemma_tagged(d.next_id as int, e, ids, ss, item, at);
            let f = with_item(e, ids, item, at, ids.len() as int);
            assert(added(d, f)) by {
                assert forall|x: NodeId| #[trigger] d.tree.nodes.dom().contains(x) implies f.tree.nodes.dom().contains(x)
                    && f.tree.nodes[x] == d.tree.nodes[x] by {
                    assert(x.0 < d.next_id);
                    assert(e.tree.nodes.dom().contains(x));
                }
            }
            lemma_pile_on(base, d, f, acc, so_far, ids, tagged(ss, item, at));
            lemma_itemized(w, kids, j + 1, item, at, n, base, f, acc + ids, so_far + tagged(ss, item, at));
            lemma_tagged_row(w, kids, j, n, item, at);
            assert(so_far + tagged(ss, item, at) + tagged(row(w, kids, j + 1, n), item, at) =~= so_far + tagged(
                row(w, kids, j, n),
                item,
                at,
            ));
        }
    } else {
        assert(so_far + tagged(row(w, kids, j, n), item, at) =~= so_far);
    }
}

proof fn lemma_listed(
    w: World,
    kids: Seq<NodeId>,
    items: Seq<ValueModel>,
    i: int,
    n: nat,
    base: int,
    d: DocModel,
    acc: Seq<NodeId>,
    so_far: Seq<Shape>,
)
    requires
        finite_tree(w.tree),
        sprouting(d),
        base <= d.next_id,
        pile(base, d, acc, so_far),
        0 <= i,
    ensures
        listed(w, kids, items, i, n, d, acc) matches Some(r) ==> done(
            base,
            d,
            r,
            so_far + for_each(row(w, kids, 0, n), items, i),
        ),
    decreases n, 2int, items.len() - i,
{
    let inner = row(w, kids, 0, n);
    if i < items.len() {
        lemma_itemized(w, kids, 0, items[i], i as i64, n, base, d, acc, so_far);
        if let Some((ids, e)) = itemized(w, kids, 0, items[i], i as i64, n, d, acc) {
            let tt = tagged(inner, items[i], i as i64);
            lemma_listed(w, kids, items, i + 1, n, base, e, ids, so_far + tt);
            assert(so_far + tt + for_each(inner, items, i + 1) =~= so_far + for_each(inner, items, i));
        }
    } else {
        assert(so_far + for_each(inner, items, i) =~= so_far);
    }
}

proof fn lemma_appended(
    w: World,
    kids: Seq<NodeId>,
    i: int,
    parent: NodeId,
    n: nat,
    d: DocModel,
    so_far: Seq<Shape>,
)
    requires
        finite_tree(w.tree),
        sprouting(d),
        d.tree.nodes.dom().contains(parent),
        parent.0 < d.next_id,
        hanging(d, parent, d.tree.nodes[parent].children, so_far),
        0 <= i,
    ensures
        appended(w, kids, i, parent, n, d) matches Some(r) ==> {
            let m = r.tree.nodes[parent];
            &&& sprouting(r)
            &&& touched(d, r, parent)
            &&& m == (NodeModel { children: m.children, ..d.tree.nodes[parent] })
            &&& hanging(r, parent, m.children, so_far + row(w, kids, i, n))
        },
    decreases n, 1int, kids.len() - i,
{
    if i < kids.len() {
        lemma_emitted(w, kids[i], n, d);
        if let Some((ids, e)) = emitted(w, kids[i], n, d) {
            let ss = pieces(w, kids[i], n);
            let base = d.next_id as int;
            let old_kids = d.tree.nodes[parent].children;
            assert(e.tree.nodes[parent] == d.tree.nodes[parent]);
            assert forall|k: int| 0 <= k < old_kids.len() implies (#[trigger] old_kids[k]).0 < base && is_piece(
                e.tree,
                old_kids[k],
                so_far[k],
                base,
            ) by {
                assert(is_piece(d.tree, old_kids[k], so_far[k], base));
                assert(unmoved(d.tree, e.tree, old_kids[k].0 as int, base));
                lemma_piece(d.tree, e.tree, old_kids[k], so_far[k], base, base);
            }
            assert(hanging(e, parent, old_kids, so_far)) by {
                assert forall|k: int| 0 <= k < old_kids.len() implies is_piece(
                    e.tree,
                    old_kids[k],
                    #[trigger] so_far[k],
                    e.next_id as int,
                ) by {
                    assert(old_kids[k].0 < base);
                    assert(unmoved(e.tree, e.tree, old_kids[k].0 as int, base));
                    lemma_piece(e.tree, e.tree, old_kids[k], so_far[k], base, e.next_id as int);
                }
            }
            assert forall|k: int| 0 <= k < old_kids.len() implies is_piece(e.tree, old_kids[k], #[trigger] so_far[k], base)
                by {
                assert(old_kids[k].0 < base);
            }
            lemma_hang(base, e, parent, old_kids, so_far, ids, ss, ids.len() as int);
            let f = with_children(e, parent, ids, ids.len() as int);
            assert(ids.take(ids.len() as int) =~= ids);
            assert(ss.take(ss.len() as int) =~= ss);
            assert(touched(d, f, parent)) by {
                assert forall|x: NodeId| #[trigger] d.tree.nodes.dom().contains(x) implies f.tree.nodes.dom().contains(x)
                    && (x == parent || f.tree.nodes[x] == d.tree.nodes[x]) by {
                    assert(x.0 < base);
                    assert(e.tree.nodes.dom().contains(x));
                    if ids.contains(x) {
                        let k = choose|k: int| 0 <= k < ids.len() && ids[k] == x;
                        assert(base <= ids[k].0);
                    }
                }
            }
            lemma_appended(w, kids, i + 1, parent, n, f, so_far + ss);
            assert(so_far + ss + row(w, kids, i + 1, n) =~= so_far + row(w, kids, i, n));
            if let Some(r) = appended(w, kids, i + 1, parent, n, f) {
                assert forall|x: NodeId| #[trigger] d.tree.nodes.dom().contains(x) implies r.tree.nodes.dom().contains(x)
                    && (x == parent || r.tree.nodes[x] == d.tree.nodes[x]) by {
                    assert(f.tree.nodes.dom().contains(x));
                }
            }
        }
    } else {
        assert(so_far + row(w, kids, i, n) =~= so_far);
    }
}

/// The document that an authored tree resolves to shows what the tree stands for in the state: its
/// root is the first piece that the authored root stands for, with the other pieces behind its own
/// children; an authored root that stands for nothing leaves an empty document.
pub proof fn law_resolved_shows_what_was_authored(w: World, n: nat, r: DocModel)
    requires
        finite_tree(w.tree),
        w.tree.root is Some,
        resolved_at(w, n) == Some(r),
    ensures
        ({
            let ss = pieces(w, w.tree.root->0, n);
            &&& ss.len() == 0 ==> r.tree.root is None
            &&& ss.len() > 0 ==> r.tree.root is Some && is_piece(
                r.tree,
                r.tree.root->0,
                Shape { children: ss[0].children + ss.skip(1), ..ss[0] },
                r.next_id as int,
            )
        }),
{
    lemma_empty_sprouting();
    let root = w.tree.root->0;
    lemma_emitted(w, root, n, empty_doc());
    let (ids, d) = emitted(w, root, n, empty_doc())->0;
    let ss = pieces(w, root, n);
    if ids.len() > 0 {
        let id = ids[0];
        let d1 = sys(d, MutationModel::SetRoot { id });
        assert(is_piece(d.tree, ids[0], ss[0], end_of(d, ids, 0)));
        lemma_set_sprouts(d, MutationModel::SetRoot { id });
        let rest = ids.skip(1);
        let others = ss.skip(1);
        let base = if ids.len() > 1 {
            ids[1].0 as int
        } else {
            d.next_id as int
        };
        let kids = d1.tree.nodes[id].children;
        assert(pile(base, d1, rest, others)) by {
            assert forall|i: int| 0 <= i < rest.len() implies base <= (#[trigger] rest[i]).0 < d1.next_id by {
                assert(rest[i] == ids[i + 1]);
                if i > 0 {
                    assert(ids[1].0 < ids[i + 1].0);
                }
            }
            assert forall|i: int, j: int| 0 <= i < j < rest.len() implies (#[trigger] rest[i]).0 < (#[trigger] rest[j]).0
                by {
                assert(rest[i] == ids[i + 1] && rest[j] == ids[j + 1]);
            }
            assert forall|i: int| 0 <= i < rest.len() implies d1.tree.nodes[#[trigger] rest[i]].parent is None by {
                assert(rest[i] == ids[i + 1]);
            }
            assert forall|i: int| 0 <= i < rest.len() implies is_piece(
                d1.tree,
                rest[i],
                #[trigger] others[i],
                end_of(d1, rest, i),
            ) by {
                assert(rest[i] == ids[i + 1] && others[i] == ss[i + 1]);
                assert(is_piece(d.tree, ids[i + 1], ss[i + 1], end_of(d, ids, i + 1)));
                assert(unmoved(d.tree, d1.tree, ids[i + 1].0 as int, end_of(d, ids, i + 1)));
                lemma_piece(d.tree, d1.tree, ids[i + 1], ss[i + 1], end_of(d, ids, i + 1), end_of(d1, rest, i));
            }
        }
        assert forall|k: int| 0 <= k < kids.len() implies (#[trigger] kids[k]).0 < base && is_piece(
            d1.tree,
            kids[k],
            ss[0].children[k],
            base,
        ) by {
            assert(is_piece(d.tree, kids[k], ss[0].children[k], base));
            assert(unmoved(d.tree, d1.tree, kids[k].0 as int, base));
            lemma_piece(d.tree, d1.tree, kids[k], ss[0].children[k], base, base);
        }
        assert(hanging(d1, id, kids, ss[0].children)) by {
            assert forall|k: int| 0 <= k < kids.len() implies is_piece(
                d1.tree,
                kids[k],
                #[trigger] ss[0].children[k],
                d1.next_id as int,
            ) by {
                assert(kids[k].0 < base);
                assert(unmoved(d1.tree, d1.tree, kids[k].0 as int, base));
                lemma_piece(d1.tree, d1.tree, kids[k], ss[0].children[k], base, d1.next_id as int);
            }
        }
        assert forall|k: int| 0 <= k < kids.len() implies is_piece(d1.tree, kids[k], #[trigger] ss[0].children[k], base)
            by {
            assert(kids[k].0 < base);
        }
        lemma_hang(base, d1, id, kids, ss[0].children, rest, others, rest.len() as int);
        assert(rest.take(rest.len() as int) =~= rest);
        assert(others.take(others.len() as int) =~= others);
    }
}

} // verus!
