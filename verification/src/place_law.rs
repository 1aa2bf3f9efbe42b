//! Where the rectangles of a layout stand, by the links of the document and the frames of the
//! engine.
use vstd::prelude::*;

use crate::a11y_law::{lemma_below_child, lemma_child, lemma_children_apart, lies_below};
use crate::coherence::{ancestor, coherent, holds, IrDefect};
use crate::coherence_law::children_distinct;
use crate::float::{FloatQuery, Unit};
use crate::ir::Tree;
use crate::layout::{
    arranged, may_lay_out, no_layout, placed, placed_all, plan_of, planned, planned_all, with_rects, ComputedRect,
    Frame, LayoutModel, Page, Plan, PlanModel, Planned,
};
use crate::node::NodeId;

verus! {

/// The single that a unit answers a request with, zero where it has no answer.
pub open spec fn said(fl: Unit, q: FloatQuery) -> u32 {
    match fl(q) {
        Some(b) => (b % 0x1_0000_0000) as u32,
        None => 0,
    }
}

/// The kind of a node whose children are laid out.
pub open spec fn holds_boxes(kind: Seq<char>) -> bool {
    kind == "Stack"@ || kind == "Column"@ || kind == "Row"@ || kind == "Grid"@
}

/// The plan has a box for its node, and in it one for each child of a node that lays children out,
/// in their order, and so on down.
pub open spec fn mirrors(t: Tree, p: PlanModel) -> bool
    decreases p,
{
    &&& t.nodes.dom().contains(p.id)
    &&& p.children.len() == if holds_boxes(t.nodes[p.id].kind) {
        t.nodes[p.id].children.len()
    } else {
        0
    }
    &&& forall|i: int| 0 <= i < p.children.len() ==> (#[trigger] p.children[i]).id == t.nodes[p.id].children[i]
    &&& forall|i: int| 0 <= i < p.children.len() ==> mirrors(t, #[trigger] p.children[i])
}

proof fn lemma_planned_mirrors(g: Page, id: NodeId, is_root: bool, n: nat)
    requires
        coherent(g.tree),
    ensures
        planned(g, id, is_root, n) matches Planned::Is(p) ==> p.id == id && mirrors(g.tree, p),
    decreases n, 0int, 0int,
{
    if g.tree.nodes.dom().contains(id) && n > 0 {
        let node = g.tree.nodes[id];
        if holds_boxes(node.kind) {
            lemma_planned_all_mirrors(g, id, 0, (n - 1) as nat, Seq::empty());
        }
    }
}

proof fn lemma_planned_all_mirrors(g: Page, id: NodeId, i: int, n: nat, acc: Seq<PlanModel>)
    requires
        coherent(g.tree),
        g.tree.nodes.dom().contains(id),
        0 <= i <= g.tree.nodes[id].children.len(),
        acc.len() == i,
        forall|k: int| 0 <= k < acc.len() ==> (#[trigger] acc[k]).id == g.tree.nodes[id].children[k] && mirrors(g.tree, acc[k]),
    ensures
        planned_all(g, g.tree.nodes[id].children, i, n, acc) matches Some(r) ==> {
            &&& r.len() == g.tree.nodes[id].children.len()
            &&& forall|k: int| 0 <= k < r.len() ==> (#[trigger] r[k]).id == g.tree.nodes[id].children[k] && mirrors(g.tree, r[k])
        },
    decreases n, 1int, g.tree.nodes[id].children.len() - i,
{
    let kids = g.tree.nodes[id].children;
    if i < kids.len() {
        assert(kids.contains(kids[i]));
        lemma_child(g.tree, id, kids[i]);
        lemma_planned_mirrors(g, kids[i], false, n);
        match planned(g, kids[i], false, n) {
            Planned::Is(p) => {
                lemma_planned_all_mirrors(g, id, i + 1, n, acc.push(p));
            },
            _ => {},
        }
    }
}

/// The rectangle at place `k` is that of a child of the node at place `j`: it stands as far from the
/// rectangle there as its frame says, in both directions.
pub open spec fn stands_on(
    fl: Unit,
    t: Tree,
    s: Seq<(NodeId, ComputedRect)>,
    frames: Seq<Frame>,
    at: int,
    k: int,
    j: int,
) -> bool {
    &&& 0 <= j < k
    &&& t.nodes[s[k].0].parent == Some(s[j].0)
    &&& s[k].1.x == said(fl, FloatQuery::AddSingle { x: s[j].1.x, y: frames[at + k].x })
    &&& s[k].1.y == said(fl, FloatQuery::AddSingle { x: s[j].1.y, y: frames[at + k].y })
}

/// The rectangle at place `k` is that of a child of `id`, as far from `origin` as its frame says.
spec fn stands_at(
    fl: Unit,
    t: Tree,
    s: Seq<(NodeId, ComputedRect)>,
    frames: Seq<Frame>,
    at: int,
    k: int,
    id: NodeId,
    origin: (u32, u32),
) -> bool {
    &&& t.nodes[s[k].0].parent == Some(id)
    &&& s[k].1.x == said(fl, FloatQuery::AddSingle { x: origin.0, y: frames[at + k].x })
    &&& s[k].1.y == said(fl, FloatQuery::AddSingle { x: origin.1, y: frames[at + k].y })
}

spec fn rests(fl: Unit, t: Tree, s: Seq<(NodeId, ComputedRect)>, frames: Seq<Frame>, at: int, k: int) -> bool {
    exists|j: int| #[trigger] stands_on(fl, t, s, frames, at, k, j)
}

/// Every rectangle has the size of its frame.
spec fn sized(s: Seq<(NodeId, ComputedRect)>, frames: Seq<Frame>, at: int) -> bool {
    &&& at + s.len() <= frames.len() || s.len() == 0
    &&& forall|k: int| 0 <= k < s.len() ==> (#[trigger] s[k]).1.w == frames[at + k].w && s[k].1.h == frames[at + k].h
}

/// The node is in the list.
pub open spec fn among(s: Seq<(NodeId, ComputedRect)>, id: NodeId) -> bool {
    exists|k: int| 0 <= k < s.len() && (#[trigger] s[k]).0 == id
}

/// The children of the node at place `k`, where it lays children out, are in the list.
spec fn whole_at(t: Tree, s: Seq<(NodeId, ComputedRect)>, k: int) -> bool {
    holds_boxes(t.nodes[s[k].0].kind) ==> forall|a: int|
        0 <= a < t.nodes[s[k].0].children.len() ==> among(s, #[trigger] t.nodes[s[k].0].children[a])
}

spec fn ids_distinct(s: Seq<(NodeId, ComputedRect)>) -> bool {
    forall|i: int, j: int| 0 <= i < j < s.len() ==> (#[trigger] s[i]).0 != (#[trigger] s[j]).0
}

/// Place `i` is in the part of the list below one child of `q`, and place `j` in that below a later
/// one.
pub open spec fn parted(t: Tree, x: NodeId, y: NodeId, q: NodeId, a: int, b: int) -> bool {
    &&& 0 <= a < b < t.nodes[q].children.len()
    &&& lies_below(t, x, t.nodes[q].children[a])
    &&& lies_below(t, y, t.nodes[q].children[b])
}

/// What lies below an earlier child of `q` stands before what lies below a later one.
spec fn kept_order(t: Tree, s: Seq<(NodeId, ComputedRect)>, q: NodeId) -> bool {
    forall|i: int, j: int, a: int, b: int|
        0 <= i < s.len() && 0 <= j < s.len() && #[trigger] parted(t, s[i].0, s[j].0, q, a, b) ==> i < j
}

/// What the list of a plan is.
spec fn laid(fl: Unit, t: Tree, s: Seq<(NodeId, ComputedRect)>, frames: Seq<Frame>, at: int, id: NodeId, next: int) -> bool {
    &&& next == at + s.len()
    &&& sized(s, frames, at)
    &&& ids_distinct(s)
    &&& forall|k: int| 0 <= k < s.len() ==> t.nodes.dom().contains((#[trigger] s[k]).0) && lies_below(t, s[k].0, id)
    &&& forall|k: int| 1 <= k < s.len() ==> #[trigger] rests(fl, t, s, frames, at, k)
    &&& next < frames.len() ==> forall|k: int| 0 <= k < s.len() ==> #[trigger] whole_at(t, s, k)
    &&& forall|k: int| 0 <= k < s.len() ==> kept_order(t, s, (#[trigger] s[k]).0)
}

proof fn lemma_placed(fl: Unit, t: Tree, p: PlanModel, frames: Seq<Frame>, at: int, origin: (u32, u32))
    requires
        coherent(t),
        children_distinct(t),
        mirrors(t, p),
        0 <= at,
    ensures
        ({
            let (s, next) = placed(fl, p, frames, at, origin);
            &&& laid(fl, t, s, frames, at, p.id, next)
            &&& at < frames.len() ==> s.len() > 0
            &&& s.len() > 0 ==> s[0].0 == p.id && s[0].1.x == said(
                fl,
                FloatQuery::AddSingle { x: origin.0, y: frames[at].x },
            ) && s[0].1.y == said(fl, FloatQuery::AddSingle { x: origin.1, y: frames[at].y })
        }),
    decreases p, 1int, 0int,
{
    let (s, next) = placed(fl, p, frames, at, origin);
    if at < frames.len() {
        let f = frames[at];
        let x = said(fl, FloatQuery::AddSingle { x: origin.0, y: f.x });
        let y = said(fl, FloatQuery::AddSingle { x: origin.1, y: f.y });
        assert(s[0].1.x == x && s[0].1.y == y);
        lemma_placed_all(fl, t, p, 0, frames, at + 1, (x, y));
        let (r, end) = placed_all(fl, p.children, 0, frames, at + 1, (x, y));
        let id = p.id;
        let kids = t.nodes[id].children;
        assert(s == seq![s[0]] + r);
        assert forall|k: int| 1 <= k < s.len() implies s[k] == #[trigger] r[k - 1] by {}
        assert(ancestor(t, id, 0) == Some(id));
        assert(lies_below(t, id, id));
        assert(sized(s, frames, at)) by {
            assert forall|k: int| 0 <= k < s.len() implies (#[trigger] s[k]).1.w == frames[at + k].w
                && s[k].1.h == frames[at + k].h by {
                if k > 0 {
                    assert(s[k] == r[k - 1]);
                }
            }
        }
        assert forall|k: int| 1 <= k < s.len() implies (#[trigger] s[k]).0 != id && t.nodes.dom().contains(s[k].0) && lies_below(
            t,
            s[k].0,
            id,
        ) by {
            assert(s[k] == r[k - 1]);
            assert(under_some(t, r[k - 1].0, id, 0));
            let a = choose|a: int| 0 <= a < kids.len() && lies_below(t, r[k - 1].0, #[trigger] kids[a]);
            assert(kids.contains(kids[a]));
            lemma_child(t, id, kids[a]);
            lemma_below_child(t, id, kids[a], s[k].0);
        }
        assert(ids_distinct(s)) by {
            assert forall|i: int, j: int| 0 <= i < j < s.len() implies (#[trigger] s[i]).0 != (#[trigger] s[j]).0 by {
                assert(s[j] == r[j - 1]);
                if i > 0 {
                    assert(s[i] == r[i - 1]);
                }
            }
        }
        assert forall|k: int| 1 <= k < s.len() implies #[trigger] rests(fl, t, s, frames, at, k) by {
            assert(s[k] == r[k - 1]);
            assert(frames[at + k] == frames[at + 1 + (k - 1)]);
            if stands_at(fl, t, r, frames, at + 1, k - 1, id, (x, y)) {
                assert(stands_on(fl, t, s, frames, at, k, 0));
            } else {
                assert(rests(fl, t, r, frames, at + 1, k - 1));
                let j = choose|j: int| #[trigger] stands_on(fl, t, r, frames, at + 1, k - 1, j);
                assert(s[j + 1] == r[j]);
                assert(stands_on(fl, t, s, frames, at, k, j + 1));
            }
        }
        assert forall|k: int| 0 <= k < r.len() implies among(s, (#[trigger] r[k]).0) by {
            assert(s[k + 1] == r[k]);
        }
        if next < frames.len() {
            assert forall|k: int| 0 <= k < s.len() implies #[trigger] whole_at(t, s, k) by {
                if k == 0 {
                    assert forall|a: int| 0 <= a < kids.len() && holds_boxes(t.nodes[id].kind) implies among(s, #[trigger] kids[a]) by {
                        assert(among(r, p.children[a].id));
                        lemma_among(s, r, kids[a]);
                    }
                } else {
                    assert(s[k] == r[k - 1]);
                    assert(whole_at(t, r, k - 1));
                    let below = t.nodes[s[k].0].children;
                    assert forall|a: int| 0 <= a < below.len() && holds_boxes(t.nodes[s[k].0].kind) implies among(
                        s,
                        #[trigger] below[a],
                    ) by {
                        assert(among(r, t.nodes[r[k - 1].0].children[a]));
                        lemma_among(s, r, below[a]);
                    }
                }
            }
        }
        assert forall|k: int| 0 <= k < s.len() implies kept_order(t, s, (#[trigger] s[k]).0) by {
            let q = s[k].0;
            assert(kept_order(t, r, q)) by {
                if k > 0 {
                    assert(s[k] == r[k - 1]);
                }
            }
            assert forall|i: int, j: int, a: int, b: int|
                0 <= i < s.len() && 0 <= j < s.len() && #[trigger] parted(t, s[i].0, s[j].0, q, a, b) implies i < j by {
                let below = t.nodes[q].children;
                assert(below.contains(below[a]) && below.contains(below[b]));
                if i == 0 || j == 0 {
                    // The top of the list lies below no child of what is in it.
                    let c = if i == 0 {
                        below[a]
                    } else {
                        below[b]
                    };
                    assert(lies_below(t, id, c));
                    lemma_child(t, q, c);
                    lemma_climb(t, q, id, c);
                } else {
                    assert(s[i] == r[i - 1] && s[j] == r[j - 1]);
                    assert(parted(t, r[i - 1].0, r[j - 1].0, q, a, b));
                }
            }
        }
    }
}

/// A node below another, and that below a third.
proof fn lemma_climb(t: Tree, x: NodeId, y: NodeId, z: NodeId)
    requires
        lies_below(t, x, y),
        lies_below(t, y, z),
    ensures
        lies_below(t, x, z),
{
    let j = choose|k: nat| #[trigger] ancestor(t, x, k) == Some(y);
    let k = choose|k: nat| #[trigger] ancestor(t, y, k) == Some(z);
    crate::coherence::lemma_ancestor_add(t, x, j, k);
    assert(ancestor(t, x, j + k) == Some(z));
}

proof fn lemma_among(s: Seq<(NodeId, ComputedRect)>, r: Seq<(NodeId, ComputedRect)>, id: NodeId)
    requires
        among(r, id),
        forall|k: int| 0 <= k < r.len() ==> among(s, (#[trigger] r[k]).0),
    ensures
        among(s, id),
{
    let k = choose|k: int| 0 <= k < r.len() && (#[trigger] r[k]).0 == id;
    assert(among(s, r[k].0));
}

/// The node lies below one of the children of `id` from the `i`-th on.
spec fn under_some(t: Tree, x: NodeId, id: NodeId, i: int) -> bool {
    exists|a: int| i <= a < t.nodes[id].children.len() && lies_below(t, x, #[trigger] t.nodes[id].children[a])
}

proof fn lemma_placed_all(fl: Unit, t: Tree, p: PlanModel, i: int, frames: Seq<Frame>, at: int, origin: (u32, u32))
    requires
        coherent(t),
        children_distinct(t),
        mirrors(t, p),
        0 <= at,
        0 <= i <= p.children.len(),
    ensures
        ({
            let (r, next) = placed_all(fl, p.children, i, frames, at, origin);
            &&& next == at + r.len()
            &&& sized(r, frames, at)
            &&& ids_distinct(r)
            &&& forall|k: int|
                0 <= k < r.len() ==> t.nodes.dom().contains((#[trigger] r[k]).0) && under_some(t, r[k].0, p.id, i)
            &&& forall|k: int|
                0 <= k < r.len() ==> #[trigger] rests(fl, t, r, frames, at, k) || stands_at(
                    fl,
                    t,
                    r,
                    frames,
                    at,
                    k,
                    p.id,
                    origin,
                )
            &&& next < frames.len() ==> forall|k: int| 0 <= k < r.len() ==> #[trigger] whole_at(t, r, k)
            &&& next < frames.len() ==> forall|a: int| i <= a < p.children.len() ==> among(r, (#[trigger] p.children[a]).id)
            &&& forall|k: int| 0 <= k < r.len() ==> kept_order(t, r, (#[trigger] r[k]).0)
            &&& kept_order(t, r, p.id)
        }),
    decreases p, 0int, p.children.len() - i,
{
    let (r, next) = placed_all(fl, p.children, i, frames, at, origin);
    if i < p.children.len() {
        let c = p.children[i];
        let kids = t.nodes[p.id].children;
        assert(c.id == kids[i]);
        lemma_placed(fl, t, c, frames, at, origin);
        let (u, mid) = placed(fl, c, frames, at, origin);
        lemma_placed_all(fl, t, p, i + 1, frames, mid, origin);
        let (v, end) = placed_all(fl, p.children, i + 1, frames, mid, origin);
        let n = u.len() as int;
        assert(r == u + v);
        assert forall|k: int| 0 <= k < n implies r[k] == #[trigger] u[k] by {}
        assert forall|k: int| 0 <= k < v.len() implies r[n + k] == #[trigger] v[k] by {}
        assert(kids.contains(kids[i]));
        lemma_child(t, p.id, kids[i]);
        assert forall|k: int| 0 <= k < r.len() implies t.nodes.dom().contains((#[trigger] r[k]).0) && under_some(t, r[k].0, p.id, i) by {
            if k < n {
                assert(r[k] == u[k]);
                assert(lies_below(t, r[k].0, kids[i]));
            } else {
                assert(r[k] == v[k - n]);
                assert(under_some(t, v[k - n].0, p.id, i + 1));
                let a = choose|a: int| i + 1 <= a < kids.len() && lies_below(t, v[k - n].0, #[trigger] kids[a]);
                assert(lies_below(t, r[k].0, kids[a]));
            }
        }
        // Nothing is in both parts.
        assert forall|k: int, l: int| 0 <= k < n && 0 <= l < v.len() implies (#[trigger] u[k]).0 != (#[trigger] v[l]).0
            && !lies_below(t, v[l].0, kids[i]) by {
            assert(under_some(t, v[l].0, p.id, i + 1));
            let a = choose|a: int| i + 1 <= a < kids.len() && lies_below(t, v[l].0, #[trigger] kids[a]);
            assert(kids.contains(kids[a]));
            assert(kids[a] != kids[i]);
            lemma_children_apart(t, p.id, kids[a], kids[i], v[l].0);
        }
        assert(ids_distinct(r)) by {
            assert forall|x: int, y: int| 0 <= x < y < r.len() implies (#[trigger] r[x]).0 != (#[trigger] r[y]).0 by {
                if y < n {
                    assert(u[x] == r[x] && u[y] == r[y]);
                } else if x >= n {
                    assert(v[x - n] == r[x] && v[y - n] == r[y]);
                } else {
                    assert(u[x] == r[x] && v[y - n] == r[y]);
                }
            }
        }
        assert(sized(r, frames, at)) by {
            assert forall|k: int| 0 <= k < r.len() implies (#[trigger] r[k]).1.w == frames[at + k].w
                && r[k].1.h == frames[at + k].h by {
                if k < n {
                    assert(r[k] == u[k]);
                } else {
                    assert(r[k] == v[k - n]);
                    assert(at + k == mid + (k - n));
                }
            }
        }
        assert forall|k: int| 0 <= k < r.len() implies #[trigger] rests(fl, t, r, frames, at, k) || stands_at(
            fl,
            t,
            r,
            frames,
            at,
            k,
            p.id,
            origin,
        ) by {
            if k < n {
                assert(r[k] == u[k]);
                if k == 0 {
                    assert(!holds(t, IrDefect::BackrefMismatch { parent: p.id, child: kids[i] }));
                    assert(stands_at(fl, t, r, frames, at, 0, p.id, origin));
                } else {
                    assert(rests(fl, t, u, frames, at, k));
                    let j = choose|j: int| #[trigger] stands_on(fl, t, u, frames, at, k, j);
                    assert(r[j] == u[j]);
                    assert(stands_on(fl, t, r, frames, at, k, j));
                }
            } else {
                let l = k - n;
                assert(r[k] == v[l]);
                assert(at + k == mid + l);
                if rests(fl, t, v, frames, mid, l) {
                    let j = choose|j: int| #[trigger] stands_on(fl, t, v, frames, mid, l, j);
                    assert(r[n + j] == v[j]);
                    assert(stands_on(fl, t, r, frames, at, k, n + j));
                } else {
                    assert(stands_at(fl, t, v, frames, mid, l, p.id, origin));
                    assert(stands_at(fl, t, r, frames, at, k, p.id, origin));
                }
            }
        }
        assert forall|k: int| 0 <= k < u.len() implies among(r, (#[trigger] u[k]).0) by {
            assert(r[k] == u[k]);
        }
        assert forall|k: int| 0 <= k < v.len() implies among(r, (#[trigger] v[k]).0) by {
            assert(r[n + k] == v[k]);
        }
        if next < frames.len() {
            assert(mid <= end);
            assert forall|k: int| 0 <= k < r.len() implies #[trigger] whole_at(t, r, k) by {
                let below = t.nodes[r[k].0].children;
                if k < n {
                    assert(r[k] == u[k]);
                    assert(whole_at(t, u, k));
                    assert forall|a: int| 0 <= a < below.len() && holds_boxes(t.nodes[r[k].0].kind) implies among(r, #[trigger] below[a]) by {
                        assert(among(u, t.nodes[u[k].0].children[a]));
                        lemma_among(r, u, below[a]);
                    }
                } else {
                    assert(r[k] == v[k - n]);
                    assert(whole_at(t, v, k - n));
                    assert forall|a: int| 0 <= a < below.len() && holds_boxes(t.nodes[r[k].0].kind) implies among(r, #[trigger] below[a]) by {
                        assert(among(v, t.nodes[v[k - n].0].children[a]));
                        lemma_among(r, v, below[a]);
                    }
                }
            }
            assert forall|a: int| i <= a < p.children.len() implies among(r, (#[trigger] p.children[a]).id) by {
                if a == i {
                    assert(u[0].0 == c.id);
                    assert(r[0] == u[0]);
                } else {
                    assert(among(v, p.children[a].id));
                    lemma_among(r, v, p.children[a].id);
                }
            }
        }
        assert(kept_order(t, r, p.id)) by {
            assert forall|x: int, y: int, a: int, b: int|
                0 <= x < r.len() && 0 <= y < r.len() && #[trigger] parted(t, r[x].0, r[y].0, p.id, a, b) implies x < y by {
                assert(kids.contains(kids[a]) && kids.contains(kids[b]));
                if y < n {
                    // What is in the first part lies below the i-th child, which is then the later one.
                    assert(r[y] == u[y]);
                    if b != i {
                        lemma_children_apart(t, p.id, kids[i], kids[b], r[y].0);
                    }
                    if x < n {
                        assert(r[x] == u[x]);
                        assert(a != i);
                        lemma_children_apart(t, p.id, kids[i], kids[a], r[x].0);
                    } else {
                        assert(r[x] == v[x - n]);
                        assert(under_some(t, v[x - n].0, p.id, i + 1));
                        let d = choose|d: int| i + 1 <= d < kids.len() && lies_below(t, v[x - n].0, #[trigger] kids[d]);
                        assert(kids.contains(kids[d]));
                        assert(kids[d] != kids[a]);
                        lemma_children_apart(t, p.id, kids[d], kids[a], r[x].0);
                    }
                } else if x >= n {
                    assert(r[x] == v[x - n] && r[y] == v[y - n]);
                    assert(parted(t, v[x - n].0, v[y - n].0, p.id, a, b));
                }
            }
        }
        assert forall|k: int| 0 <= k < r.len() implies kept_order(t, r, (#[trigger] r[k]).0) by {
            let q = r[k].0;
            let below = t.nodes[q].children;
            assert forall|x: int, y: int, a: int, b: int|
                0 <= x < r.len() && 0 <= y < r.len() && #[trigger] parted(t, r[x].0, r[y].0, q, a, b) implies x < y by {
                assert(below.contains(below[a]) && below.contains(below[b]));
                lemma_below_child(t, q, below[a], r[x].0);
                lemma_below_child(t, q, below[b], r[y].0);
                if k < n {
                    assert(r[k] == u[k]);
                    lemma_climb(t, r[x].0, q, kids[i]);
                    lemma_climb(t, r[y].0, q, kids[i]);
                    if x >= n {
                        assert(r[x] == v[x - n]);
                        assert(u[k].0 != v[x - n].0);
                    }
                    if y >= n {
                        assert(r[y] == v[y - n]);
                        assert(u[k].0 != v[y - n].0);
                    }
                    assert(r[x] == u[x] && r[y] == u[y]);
                    assert(kept_order(t, u, u[k].0));
                    assert(parted(t, u[x].0, u[y].0, q, a, b));
                } else {
                    let l = k - n;
                    assert(r[k] == v[l]);
                    assert(under_some(t, v[l].0, p.id, i + 1));
                    let d = choose|d: int| i + 1 <= d < kids.len() && lies_below(t, v[l].0, #[trigger] kids[d]);
                    assert(kids.contains(kids[d]));
                    assert(kids[d] != kids[i]);
                    lemma_climb(t, r[x].0, q, kids[d]);
                    lemma_climb(t, r[y].0, q, kids[d]);
                    lemma_children_apart(t, p.id, kids[d], kids[i], r[x].0);
                    lemma_children_apart(t, p.id, kids[d], kids[i], r[y].0);
                    if x < n {
                        assert(r[x] == u[x]);
                    }
                    if y < n {
                        assert(r[y] == u[y]);
                    }
                    assert(r[x] == v[x - n] && r[y] == v[y - n]);
                    assert(kept_order(t, v, v[l].0));
                    assert(parted(t, v[x - n].0, v[y - n].0, q, a, b));
                }
            }
        }
    }
}

proof fn lemma_rects(l: LayoutModel, s: Seq<(NodeId, ComputedRect)>)
    requires
        ids_distinct(s),
    ensures
        with_rects(l, s).order == l.order + s.map_values(|e: (NodeId, ComputedRect)| e.0),
        with_rects(l, s).viewport == l.viewport,
        forall|k: int|
            0 <= k < s.len() ==> with_rects(l, s).rects.dom().contains((#[trigger] s[k]).0) && with_rects(l, s).rects[s[k].0]
                == s[k].1,
    decreases s.len(),
{
    let ids = s.map_values(|e: (NodeId, ComputedRect)| e.0);
    if s.len() == 0 {
        assert(l.order + ids =~= l.order);
    } else {
        let d = s.drop_last();
        assert(ids_distinct(d)) by {
            assert forall|i: int, j: int| 0 <= i < j < d.len() implies (#[trigger] d[i]).0 != (#[trigger] d[j]).0 by {
                assert(s[i].0 != s[j].0);
            }
        }
        lemma_rects(l, d);
        assert(with_rects(l, s).order =~= l.order + ids);
        assert forall|k: int| 0 <= k < s.len() implies with_rects(l, s).rects.dom().contains((#[trigger] s[k]).0) && with_rects(
            l,
            s,
        ).rects[s[k].0] == s[k].1 by {
            if k < d.len() {
                assert(d[k] == s[k]);
                assert(s[k].0 != s[s.len() - 1].0);
            }
        }
    }
}

/// How a layout follows from the links of the document and the frames that the engine gave, box by box
/// in the order of the layout. The root stands where its frame says; every other node stands inside
/// the rectangle of its parent, as far from that one's corner as its own frame says, in both
/// directions; each has the size of its frame. A parent stands before its children, and all that is
/// below one child before all that is below a later one. No node stands twice, and a child of a node
/// that lays children out is missing only where the frames ran out.
pub open spec fn follows_frames(fl: Unit, t: Tree, l: LayoutModel, frames: Seq<Frame>) -> bool {
    &&& l.order.len() <= frames.len()
    &&& l.order.len() > 0 <==> frames.len() > 0
    &&& l.order.no_duplicates()
    &&& forall|k: int|
        0 <= k < l.order.len() ==> l.rects.dom().contains(#[trigger] l.order[k]) && l.rects[l.order[k]].w == frames[k].w
            && l.rects[l.order[k]].h == frames[k].h
    &&& l.order.len() > 0 ==> {
        &&& t.root == Some(l.order[0])
        &&& l.rects[l.order[0]].x == said(fl, FloatQuery::AddSingle { x: 0, y: frames[0].x })
        &&& l.rects[l.order[0]].y == said(fl, FloatQuery::AddSingle { x: 0, y: frames[0].y })
    }
    &&& forall|k: int| 1 <= k < l.order.len() ==> in_its_parent(fl, t, l, frames, #[trigger] l.order[k], k)
    &&& forall|i: int, j: int, q: NodeId, a: int, b: int|
        0 <= i < l.order.len() && 0 <= j < l.order.len() && l.order.contains(q) && #[trigger] parted(
            t,
            l.order[i],
            l.order[j],
            q,
            a,
            b,
        ) ==> i < j
    &&& l.order.len() < frames.len() ==> forall|q: NodeId, a: int|
        l.order.contains(q) && holds_boxes(t.nodes[q].kind) && 0 <= a < t.nodes[q].children.len() ==> l.order.contains(
            #[trigger] t.nodes[q].children[a],
        )
}

/// The node, at place `k`, has a parent that stands before it, and stands in its rectangle where its
/// frame says.
pub open spec fn in_its_parent(fl: Unit, t: Tree, l: LayoutModel, frames: Seq<Frame>, id: NodeId, k: int) -> bool {
    match t.nodes[id].parent {
        Some(p) => {
            &&& l.rects.dom().contains(p)
            &&& l.order.take(k).contains(p)
            &&& l.rects[id].x == said(fl, FloatQuery::AddSingle { x: l.rects[p].x, y: frames[k].x })
            &&& l.rects[id].y == said(fl, FloatQuery::AddSingle { x: l.rects[p].y, y: frames[k].y })
        },
        None => false,
    }
}

/// A layout follows from the links of the document and the frames of the engine; without frames it is
/// empty.
pub proof fn law_rectangles_accumulate<E: Fn(&Plan) -> Option<Vec<Frame>>>(e: E, g: Page, l: LayoutModel)
    requires
        coherent(g.tree),
        children_distinct(g.tree),
        may_lay_out(e, g, l),
    ensures
        l.order.len() > 0 ==> exists|p: &Plan, f: Option<Vec<Frame>>| #[trigger]
            call_ensures(e, (p,), f) && f is Some && mirrors(g.tree, p@) && follows_frames(g.fl, g.tree, l, f->0@),
{
    match plan_of(g) {
        Planned::Is(m) => {
            let (p, f) = choose|p: &Plan, f: Option<Vec<Frame>>| #[trigger]
                call_ensures(e, (p,), f) && p@ == m && l == arranged(
                    g.fl,
                    m,
                    match f {
                        Some(v) => Some(v@),
                        None => None,
                    },
                    g.viewport,
                );
            match f {
                Some(v) => {
                    law_arranged_follows_frames(g, m, v@);
                    let root = g.tree.root->0;
                    lemma_planned_mirrors(
                        g,
                        root,
                        true,
                        (choose|n: u64| !(#[trigger] planned(g, root, true, n as nat) is Deeper)) as nat,
                    );
                    assert(call_ensures(e, (p,), f));
                },
                None => {},
            }
        },
        _ => {},
    }
}

/// The layout that the plan of a page and some frames give follows those frames.
pub proof fn law_arranged_follows_frames(g: Page, m: PlanModel, frames: Seq<Frame>)
    requires
        coherent(g.tree),
        children_distinct(g.tree),
        plan_of(g) == Planned::Is(m),
    ensures
        follows_frames(g.fl, g.tree, arranged(g.fl, m, Some(frames), g.viewport), frames),
        arranged(g.fl, m, Some(frames), g.viewport).viewport == g.viewport,
{
    let t = g.tree;
    let root = t.root->0;
    let n = choose|n: u64| !(#[trigger] planned(g, root, true, n as nat) is Deeper);
    lemma_planned_mirrors(g, root, true, n as nat);
    let (s, next) = placed(g.fl, m, frames, 0, (0, 0));
    lemma_placed(g.fl, t, m, frames, 0, (0, 0));
    lemma_rects(no_layout(g.viewport), s);
    let l = arranged(g.fl, m, Some(frames), g.viewport);
    let ids = s.map_values(|e: (NodeId, ComputedRect)| e.0);
    assert(l.order =~= ids);
    assert forall|k: int| 0 <= k < s.len() implies #[trigger] l.order[k] == s[k].0 && l.rects.dom().contains(s[k].0)
        && l.rects[s[k].0] == s[k].1 by {}
    assert(sized(s, frames, 0));
    if s.len() > 0 {
        assert(s[s.len() - 1].1.w == frames[0 + s.len() - 1].w);
    }
    assert(l.order.no_duplicates()) by {
        assert forall|i: int, j: int| 0 <= i < l.order.len() && 0 <= j < l.order.len() && i != j implies l.order[i] != l.order[j] by {
            if i < j {
                assert(s[i].0 != s[j].0);
            } else {
                assert(s[j].0 != s[i].0);
            }
        }
    }
    assert forall|k: int| 0 <= k < l.order.len() implies l.rects.dom().contains(#[trigger] l.order[k]) && l.rects[l.order[k]].w
        == frames[k].w && l.rects[l.order[k]].h == frames[k].h by {
        assert(s[k].1.w == frames[0 + k].w);
    }
    assert forall|k: int| 1 <= k < l.order.len() implies in_its_parent(g.fl, t, l, frames, #[trigger] l.order[k], k) by {
        assert(l.order[k] == s[k].0);
        assert(rests(g.fl, t, s, frames, 0, k));
        let j = choose|j: int| #[trigger] stands_on(g.fl, t, s, frames, 0, k, j);
        assert(l.order[j] == s[j].0);
        assert(l.order.take(k)[j] == s[j].0);
    }
    assert forall|i: int, j: int, q: NodeId, a: int, b: int|
        0 <= i < l.order.len() && 0 <= j < l.order.len() && l.order.contains(q) && #[trigger] parted(
            t,
            l.order[i],
            l.order[j],
            q,
            a,
            b,
        ) implies i < j by {
        let k = choose|k: int| 0 <= k < l.order.len() && l.order[k] == q;
        assert(s[k].0 == q);
        assert(kept_order(t, s, s[k].0));
        assert(parted(t, s[i].0, s[j].0, q, a, b));
    }
    if l.order.len() < frames.len() {
        assert forall|q: NodeId, a: int|
            l.order.contains(q) && holds_boxes(t.nodes[q].kind) && 0 <= a < t.nodes[q].children.len() implies l.order.contains(
            #[trigger] t.nodes[q].children[a],
        ) by {
            let k = choose|k: int| 0 <= k < l.order.len() && l.order[k] == q;
            assert(s[k].0 == q);
            assert(whole_at(t, s, k));
            assert(among(s, t.nodes[s[k].0].children[a]));
            let j = choose|j: int| 0 <= j < s.len() && (#[trigger] s[j]).0 == t.nodes[q].children[a];
            assert(l.order[j] == s[j].0);
        }
    }
}

} // verus!
