//! Structural checks: whether the links of a document agree with each other.
use vstd::prelude::*;

use crate::ir::{Document, Tree};
use crate::node::{has_id, NodeId};

verus! {

/// A way in which the links of a document disagree.
#[derive(Debug, Clone, Copy, PartialEq, Eq, Structural)]
pub enum IrDefect {
    /// A node names a parent that does not exist.
    DanglingParent { node: NodeId, parent: NodeId },
    /// A node lists a child that does not exist.
    ChildMissing { parent: NodeId, child: NodeId },
    /// A parent and a child do not point at each other.
    BackrefMismatch { parent: NodeId, child: NodeId },
    /// A node is its own ancestor.
    Cycle { node: NodeId },
    /// The root does not exist.
    RootMissing { root: NodeId },
}

/// The `k`-th ancestor along the parent links; the `0`-th is the node itself.
pub open spec fn ancestor(t: Tree, n: NodeId, k: nat) -> Option<NodeId>
    decreases k,
{
    if k == 0 {
        Some(n)
    } else {
        match ancestor(t, n, (k - 1) as nat) {
            Some(c) => if t.nodes.dom().contains(c) {
                t.nodes[c].parent
            } else {
                None
            },
            None => None,
        }
    }
}

/// `x` is `n`, or lies above it.
pub open spec fn above(t: Tree, x: NodeId, n: NodeId) -> bool {
    exists|k: nat| #[trigger] ancestor(t, n, k) == Some(x)
}

/// Following the parent links from `n` leads back to `n`.
pub open spec fn on_cycle(t: Tree, n: NodeId) -> bool {
    exists|k: nat| k >= 1 && #[trigger] ancestor(t, n, k) == Some(n)
}

/// The defect is present in the tree.
pub open spec fn holds(t: Tree, d: IrDefect) -> bool {
    match d {
        IrDefect::RootMissing { root } => t.root == Some(root) && !t.nodes.dom().contains(root),
        IrDefect::DanglingParent { node, parent } => {
            &&& t.nodes.dom().contains(node)
            &&& t.nodes[node].parent == Some(parent)
            &&& !t.nodes.dom().contains(parent)
        },
        IrDefect::ChildMissing { parent, child } => {
            &&& t.nodes.dom().contains(parent)
            &&& t.nodes[parent].children.contains(child)
            &&& !t.nodes.dom().contains(child)
        },
        IrDefect::BackrefMismatch { parent, child } => {
            &&& t.nodes.dom().contains(parent)
            &&& t.nodes.dom().contains(child)
            &&& t.nodes[parent].children.contains(child) != (t.nodes[child].parent == Some(parent))
        },
        IrDefect::Cycle { node } => t.nodes.dom().contains(node) && on_cycle(t, node),
    }
}

/// The links of the tree agree with each other.
pub open spec fn coherent(t: Tree) -> bool {
    forall|d: IrDefect| !#[trigger] holds(t, d)
}

/// Where a defect stands in a report: by sort first, then by the ids it names.
pub open spec fn defect_key(d: IrDefect) -> (int, u64, u64) {
    match d {
        IrDefect::DanglingParent { node, parent } => (0, node.0, parent.0),
        IrDefect::ChildMissing { parent, child } => (1, parent.0, child.0),
        IrDefect::BackrefMismatch { parent, child } => (2, parent.0, child.0),
        IrDefect::Cycle { node } => (3, node.0, 0),
        IrDefect::RootMissing { root } => (4, root.0, 0),
    }
}

/// `a` stands strictly before `b` in a report.
pub open spec fn defect_before(a: IrDefect, b: IrDefect) -> bool {
    let (t, x, y) = defect_key(a);
    let (u, v, w) = defect_key(b);
    t < u || t == u && (x < v || x == v && y < w)
}

/// The report is ordered and names nothing twice.
pub open spec fn report_ordered(s: Seq<IrDefect>) -> bool {
    forall|i: int, j: int| 0 <= i < j < s.len() ==> defect_before(#[trigger] s[i], #[trigger] s[j])
}

fn key_of(d: &IrDefect) -> (r: (u8, u64, u64))
    ensures
        (r.0 as int, r.1, r.2) == defect_key(*d),
{
    match d {
        IrDefect::DanglingParent { node, parent } => (0, node.0, parent.0),
        IrDefect::ChildMissing { parent, child } => (1, parent.0, child.0),
        IrDefect::BackrefMismatch { parent, child } => (2, parent.0, child.0),
        IrDefect::Cycle { node } => (3, node.0, 0),
        IrDefect::RootMissing { root } => (4, root.0, 0),
    }
}

/// `true` exactly when `a` stands strictly before `b` in a report.
pub fn stands_before(a: &IrDefect, b: &IrDefect) -> (r: bool)
    ensures
        r == defect_before(*a, *b),
{
    let (t, x, y) = key_of(a);
    let (u, v, w) = key_of(b);
    t < u || (t == u && (x < v || (x == v && y < w)))
}

/// Files a defect in an ordered report, once.
fn file(report: &mut Vec<IrDefect>, d: IrDefect)
    requires
        report_ordered(old(report)@),
    ensures
        report_ordered(final(report)@),
        forall|x: IrDefect| #[trigger]
            final(report)@.contains(x) <==> (old(report)@.contains(x) || x == d),
{
    let mut i: usize = 0;
    while i < report.len() && stands_before(&report[i], &d)
        invariant
            i <= report@.len(),
            report@ == old(report)@,
            forall|k: int| 0 <= k < i ==> defect_before(#[trigger] report@[k], d),
        decreases report.len() - i,
    {
        i += 1;
    }
    if i < report.len() && report[i] == d {
        return;
    }
    let ghost before = report@;
    report.insert(i, d);
    proof {
        let now = report@;
        assert(now =~= before.insert(i as int, d));
        if i < before.len() {
            assert(defect_before(d, before[i as int]));
        }
        assert forall|a: int, b: int| 0 <= a < b < now.len() implies defect_before(
            #[trigger] now[a],
            #[trigger] now[b],
        ) by {
            let a1 = if a < i { a } else { a - 1 };
            let b1 = if b < i { b } else { b - 1 };
            if a == i {
                if b1 > i {
                    assert(defect_before(before[i as int], before[b1]));
                }
            } else if b != i {
                assert(defect_before(before[a1], before[b1]));
            }
        }
        assert forall|x: IrDefect| #[trigger] now.contains(x) <==> (before.contains(x) || x == d) by {
            if before.contains(x) {
                let k = choose|k: int| 0 <= k < before.len() && before[k] == x;
                let k1 = if k < i { k } else { k + 1 };
                assert(now[k1] == x);
            }
            if now.contains(x) {
                let k = choose|k: int| 0 <= k < now.len() && now[k] == x;
                if k != i {
                    let k1 = if k < i { k } else { k - 1 };
                    assert(before[k1] == x);
                }
            }
            assert(now[i as int] == d);
        }
    }
}

/// Climbing on from an ancestor is climbing further.
pub proof fn lemma_ancestor_add(t: Tree, n: NodeId, a: nat, b: nat)
    requires
        ancestor(t, n, a) is Some,
    ensures
        ancestor(t, n, a + b) == ancestor(t, ancestor(t, n, a)->0, b),
    decreases b,
{
    if b > 0 {
        lemma_ancestor_add(t, n, a, (b - 1) as nat);
        assert((a + b - 1) as nat == a + (b - 1) as nat);
    }
}

/// Below an ancestor every step of the climb is there.
pub proof fn lemma_ancestor_defined(t: Tree, n: NodeId, j: nat, k: nat)
    requires
        ancestor(t, n, k) is Some,
        j <= k,
    ensures
        ancestor(t, n, j) is Some,
        j < k ==> t.nodes.dom().contains(ancestor(t, n, j)->0),
    decreases k - j,
{
    if j < k {
        lemma_ancestor_defined(t, n, (j + 1) as nat, k);
    }
}

/// A node on a cycle gets back to itself in no more steps than there are nodes.
proof fn lemma_short_cycle(t: Tree, n: NodeId, k: nat)
    requires
        t.nodes.dom().finite(),
        k >= 1,
        ancestor(t, n, k) == Some(n),
    ensures
        exists|j: nat| 1 <= j <= t.nodes.dom().len() && #[trigger] ancestor(t, n, j) == Some(n),
    decreases k,
{
    if k > t.nodes.dom().len() {
        let walk = Seq::new(k, |j: int| ancestor(t, n, j as nat)->0);
        assert forall|j: int| 0 <= j < k implies t.nodes.dom().contains(#[trigger] walk[j]) by {
            lemma_ancestor_defined(t, n, j as nat, k);
        }
        if walk.no_duplicates() {
            walk.unique_seq_to_set();
            assert(walk.to_set().subset_of(t.nodes.dom())) by {
                assert forall|x: NodeId| walk.to_set().contains(x) implies t.nodes.dom().contains(x) by {
                    let j = choose|j: int| 0 <= j < walk.len() && walk[j] == x;
                    assert(t.nodes.dom().contains(walk[j]));
                }
            }
            vstd::set_lib::lemma_len_subset(walk.to_set(), t.nodes.dom());
            assert(false);
        }
        let (a, b): (int, int) = choose|a: int, b: int|
            0 <= a < k && 0 <= b < k && a != b && #[trigger] walk[a] == #[trigger] walk[b];
        let (x, y) = if a < b { (a as nat, b as nat) } else { (b as nat, a as nat) };
        lemma_ancestor_defined(t, n, x, k);
        lemma_ancestor_defined(t, n, y, k);
        assert(ancestor(t, n, x)->0 == walk[x as int]);
        assert(ancestor(t, n, y)->0 == walk[y as int]);
        let rest = (k - y) as nat;
        lemma_ancestor_add(t, n, y, rest);
        lemma_ancestor_add(t, n, x, rest);
        assert(y + rest == k);
        lemma_short_cycle(t, n, x + rest);
    } else {
        assert(ancestor(t, n, k) == Some(n));
    }
}

/// What lies above a node is met in no more steps than there are nodes.
proof fn lemma_short_climb(t: Tree, n: NodeId, x: NodeId, k: nat)
    requires
        t.nodes.dom().finite(),
        ancestor(t, n, k) == Some(x),
    ensures
        exists|j: nat| j <= t.nodes.dom().len() && #[trigger] ancestor(t, n, j) == Some(x),
    decreases k,
{
    if k > t.nodes.dom().len() {
        let walk = Seq::new(k, |j: int| ancestor(t, n, j as nat)->0);
        assert forall|j: int| 0 <= j < k implies t.nodes.dom().contains(#[trigger] walk[j]) by {
            lemma_ancestor_defined(t, n, j as nat, k);
        }
        if walk.no_duplicates() {
            walk.unique_seq_to_set();
            assert(walk.to_set().subset_of(t.nodes.dom())) by {
                assert forall|y: NodeId| walk.to_set().contains(y) implies t.nodes.dom().contains(y) by {
                    let j = choose|j: int| 0 <= j < walk.len() && walk[j] == y;
                    assert(t.nodes.dom().contains(walk[j]));
                }
            }
            vstd::set_lib::lemma_len_subset(walk.to_set(), t.nodes.dom());
            assert(false);
        }
        let (a, b): (int, int) = choose|a: int, b: int|
            0 <= a < k && 0 <= b < k && a != b && #[trigger] walk[a] == #[trigger] walk[b];
        let (u, v) = if a < b { (a as nat, b as nat) } else { (b as nat, a as nat) };
        lemma_ancestor_defined(t, n, u, k);
        lemma_ancestor_defined(t, n, v, k);
        assert(ancestor(t, n, u)->0 == walk[u as int]);
        assert(ancestor(t, n, v)->0 == walk[v as int]);
        let rest = (k - v) as nat;
        lemma_ancestor_add(t, n, v, rest);
        lemma_ancestor_add(t, n, u, rest);
        assert(v + rest == k);
        lemma_short_climb(t, n, x, u + rest);
    } else {
        assert(ancestor(t, n, k) == Some(x));
    }
}

/// `true` exactly when `x` is `n` or lies above it.
pub fn is_above(doc: &Document, x: NodeId, n: NodeId) -> (r: bool)
    ensures
        r == above(doc@.tree, x, n),
{
    let ghost t = doc@.tree;
    let limit: usize = doc.len();
    let mut steps: usize = 0;
    let mut cur: NodeId = n;
    loop
        invariant
            t == doc@.tree,
            limit == t.nodes.dom().len(),
            t.nodes.dom().finite(),
            steps <= limit,
            ancestor(t, n, steps as nat) == Some(cur),
            forall|j: nat| j < steps ==> #[trigger] ancestor(t, n, j) != Some(x),
        decreases limit - steps,
    {
        if cur == x {
            return true;
        }
        if steps >= limit {
            proof {
                if above(t, x, n) {
                    let k = choose|k: nat| #[trigger] ancestor(t, n, k) == Some(x);
                    lemma_short_climb(t, n, x, k);
                }
            }
            return false;
        }
        let up = match doc.get(cur) {
            Some(node) => node.parent,
            None => None,
        };
        assert(ancestor(t, n, (steps + 1) as nat) == up);
        match up {
            None => {
                proof {
                    if above(t, x, n) {
                        let k = choose|k: nat| #[trigger] ancestor(t, n, k) == Some(x);
                        if k > steps {
                            lemma_ancestor_defined(t, n, (steps + 1) as nat, k);
                        }
                    }
                }
                return false;
            },
            Some(p) => {
                cur = p;
            },
        }
        steps += 1;
    }
}

/// `true` exactly when the parent links lead from `n` back to `n`.
fn loops_back(doc: &Document, n: NodeId) -> (r: bool)
    requires
        doc@.tree.nodes.dom().finite(),
    ensures
        r == on_cycle(doc@.tree, n),
{
    let ghost t = doc@.tree;
    let limit: usize = doc.len();
    let mut steps: usize = 0;
    let mut cur: NodeId = n;
    while steps < limit
        invariant
            t == doc@.tree,
            limit == t.nodes.dom().len(),
            steps <= limit,
            ancestor(t, n, steps as nat) == Some(cur),
            forall|j: nat| 1 <= j <= steps ==> #[trigger] ancestor(t, n, j) != Some(n),
            t.nodes.dom().finite(),
        decreases limit - steps,
    {
        let up = match doc.get(cur) {
            Some(node) => node.parent,
            None => None,
        };
        assert(ancestor(t, n, (steps + 1) as nat) == up);
        match up {
            None => {
                proof {
                    if on_cycle(t, n) {
                        let k = choose|k: nat| k >= 1 && #[trigger] ancestor(t, n, k) == Some(n);
                        if k > steps + 1 {
                            lemma_ancestor_defined(t, n, (steps + 1) as nat, k);
                        }
                    }
                }
                return false;
            },
            Some(p) => {
                if p == n {
                    return true;
                }
                cur = p;
            },
        }
        steps += 1;
    }
    proof {
        if on_cycle(t, n) {
            let k = choose|k: nat| k >= 1 && #[trigger] ancestor(t, n, k) == Some(n);
            lemma_short_cycle(t, n, k);
        }
    }
    false
}

/// The defect was found while looking at one of the first `i` nodes, at its parent link or one of
/// its child links.
spec fn found_from(t: Tree, ids: Seq<NodeId>, i: int, d: IrDefect) -> bool {
    exists|k: int| 0 <= k < i && #[trigger] found_at(t, ids[k], d)
}

/// The defect shows when looking at `id`.
spec fn found_at(t: Tree, id: NodeId, d: IrDefect) -> bool {
    &&& holds(t, d)
    &&& match d {
        IrDefect::RootMissing { .. } => false,
        IrDefect::DanglingParent { node, .. } => node == id,
        IrDefect::ChildMissing { parent, .. } => parent == id,
        IrDefect::BackrefMismatch { parent, child } => {
            ||| child == id && t.nodes[child].parent == Some(parent)
            ||| parent == id && t.nodes[parent].children.contains(child)
        },
        IrDefect::Cycle { node } => node == id,
    }
}

/// The child links of `id` among the first `i`.
spec fn child_defect(t: Tree, id: NodeId, i: int, d: IrDefect) -> bool {
    &&& holds(t, d)
    &&& match d {
        IrDefect::ChildMissing { parent, child } => parent == id && t.nodes[id].children.take(
            i,
        ).contains(child),
        IrDefect::BackrefMismatch { parent, child } => parent == id && t.nodes[id].children.take(
            i,
        ).contains(child),
        _ => false,
    }
}

/// The parent link of `id`.
spec fn parent_defect(t: Tree, id: NodeId, d: IrDefect) -> bool {
    &&& holds(t, d)
    &&& match d {
        IrDefect::DanglingParent { node, .. } => node == id,
        IrDefect::BackrefMismatch { parent, child } => child == id && t.nodes[child].parent == Some(
            parent,
        ),
        _ => false,
    }
}

impl Document {
    /// Looks at one node: its parent link, its child links, and whether it is its own ancestor.
    fn inspect(&self, id: NodeId, report: &mut Vec<IrDefect>)
        requires
            report_ordered(old(report)@),
            self@.tree.nodes.dom().contains(id),
            self@.tree.nodes.dom().finite(),
        ensures
            report_ordered(final(report)@),
            forall|d: IrDefect| #[trigger]
                final(report)@.contains(d) <==> (old(report)@.contains(d) || found_at(self@.tree, id, d)),
    {
        let ghost t = self@.tree;
        let node = self.get(id).unwrap();
        match node.parent {
            None => {},
            Some(p) => match self.get(p) {
                None => {
                    file(report, IrDefect::DanglingParent { node: id, parent: p });
                },
                Some(pn) => {
                    if !has_id(&pn.children, id) {
                        file(report, IrDefect::BackrefMismatch { parent: p, child: id });
                    }
                },
            },
        }
        assert(forall|d: IrDefect| #[trigger]
            report@.contains(d) <==> (old(report)@.contains(d) || parent_defect(t, id, d)));
        let mut i: usize = 0;
        while i < node.children.len()
            invariant
                t == self@.tree,
                t.nodes.dom().contains(id),
                node@ == t.nodes[id],
                i <= node.children@.len(),
                report_ordered(report@),
                forall|d: IrDefect| #[trigger]
                    report@.contains(d) <==> (old(report)@.contains(d) || parent_defect(t, id, d)
                        || child_defect(t, id, i as int, d)),
            decreases node.children.len() - i,
        {
            let child = node.children[i];
            let ghost cs = node.children@;
            proof {
                assert(cs.take(i + 1) =~= cs.take(i as int).push(child));
                assert forall|x: NodeId| #[trigger] cs.take(i + 1).contains(x) <==> (cs.take(i as int).contains(x)
                    || x == child) by {
                    if cs.take(i as int).contains(x) {
                        let k = choose|k: int| 0 <= k < i && cs.take(i as int)[k] == x;
                        assert(cs.take(i + 1)[k] == x);
                    }
                    assert(cs.take(i + 1)[i as int] == child);
                }
                assert(cs.contains(child));
            }
            match self.get(child) {
                None => {
                    file(report, IrDefect::ChildMissing { parent: id, child });
                },
                Some(cn) => {
                    let back = match cn.parent {
                        Some(q) => q == id,
                        None => false,
                    };
                    if !back {
                        file(report, IrDefect::BackrefMismatch { parent: id, child });
                    }
                },
            }
            i += 1;
        }
        assert(node.children@.take(i as int) =~= node.children@);
        if loops_back(self, id) {
            file(report, IrDefect::Cycle { node: id });
        }
    }

    /// Checks that the links of the document agree: `Ok` exactly when they do, and otherwise every
    /// defect that is present, once, in the order of reports.
    pub fn verify(&self) -> (r: Result<(), Vec<IrDefect>>)
        ensures
            r is Ok <==> coherent(self@.tree),
            r matches Err(v) ==> report_ordered(v@) && forall|d: IrDefect| #[trigger]
                v@.contains(d) <==> holds(self@.tree, d),
    {
        let ghost t = self@.tree;
        let mut report: Vec<IrDefect> = Vec::new();
        match self.root() {
            Some(root) => {
                if self.get(root).is_none() {
                    file(&mut report, IrDefect::RootMissing { root });
                }
            },
            None => {},
        }
        let ids = self.ids();
        let mut i: usize = 0;
        while i < ids.len()
            invariant
                t == self@.tree,
                t.nodes.dom().finite(),
                ids@.to_set() == t.nodes.dom(),
                i <= ids@.len(),
                report_ordered(report@),
                forall|d: IrDefect| #[trigger]
                    report@.contains(d) <==> (d is RootMissing && holds(t, d) || found_from(
                        t,
                        ids@,
                        i as int,
                        d,
                    )),
            decreases ids.len() - i,
        {
            assert(ids@.to_set().contains(ids@[i as int]));
            self.inspect(ids[i], &mut report);
            proof {
                assert forall|d: IrDefect| #[trigger] report@.contains(d) <==> (d is RootMissing && holds(
                    t,
                    d,
                ) || found_from(t, ids@, i + 1, d)) by {
                    if found_from(t, ids@, i + 1, d) {
                        let k = choose|k: int| 0 <= k < i + 1 && #[trigger] found_at(t, ids@[k], d);
                        if k < i {
                            assert(found_from(t, ids@, i as int, d));
                        }
                    }
                    if found_at(t, ids@[i as int], d) {
                        assert(found_from(t, ids@, i + 1, d));
                    }
                }
            }
            i += 1;
        }
        proof {
            assert forall|d: IrDefect| #[trigger] report@.contains(d) <==> holds(t, d) by {
                if holds(t, d) && !(d is RootMissing) {
                    let at = match d {
                        IrDefect::DanglingParent { node, .. } => node,
                        IrDefect::ChildMissing { parent, .. } => parent,
                        IrDefect::BackrefMismatch { parent, child } => if t.nodes[parent].children.contains(
                            child,
                        ) {
                            parent
                        } else {
                            child
                        },
                        IrDefect::Cycle { node } => node,
                        IrDefect::RootMissing { root } => root,
                    };
                    assert(ids@.to_set().contains(at));
                    let k = choose|k: int| 0 <= k < ids@.len() && ids@[k] == at;
                    assert(found_at(t, ids@[k], d));
                    assert(found_from(t, ids@, i as int, d));
                }
            }
        }
        if report.len() == 0 {
            assert forall|d: IrDefect| !#[trigger] holds(t, d) by {
                assert(!report@.contains(d));
            }
            Ok(())
        } else {
            assert(report@.contains(report@[0]));
            assert(holds(t, report@[0]));
            Err(report)
        }
    }
}

} // verus!
