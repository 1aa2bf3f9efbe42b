//! The accessibility tree of a document that was laid out: what a screen reader announces, where
//! it is and what can be done with it. Bounds are doubles by their bits.
use vstd::prelude::*;

use crate::float::{add32, bits, steady, sum, unit, widen, FloatOp, FloatQuery, Unit};
use crate::ir::{Document, Tree};
use crate::layout::{text_at, text_of, ComputedRect, Layout, LayoutModel};
use crate::node::{Node, NodeId, NodeModel};
use crate::text::same;

verus! {

/// What a node is to a screen reader.
#[derive(Debug, Clone, Copy, PartialEq, Eq, Structural)]
pub enum Role {
    Label,
    Button,
    Group,
    GenericContainer,
    Window,
}

/// A rectangle by two corners.
#[derive(Debug, Clone, Copy, PartialEq, Eq, Structural)]
pub struct Bounds {
    pub x0: u64,
    pub y0: u64,
    pub x1: u64,
    pub y1: u64,
}

/// A node of the accessibility tree.
#[derive(Debug)]
pub struct A11yNode {
    pub role: Role,
    pub bounds: Option<Bounds>,
    pub label: Option<String>,
    /// It can be focused and clicked.
    pub actionable: bool,
    pub children: Vec<u64>,
}

/// An [`A11yNode`] as mathematics.
#[verifier::ext_equal]
pub struct A11yModel {
    pub role: Role,
    pub bounds: Option<Bounds>,
    pub label: Option<Seq<char>>,
    pub actionable: bool,
    pub children: Seq<u64>,
}

impl View for A11yNode {
    type V = A11yModel;

    open spec fn view(&self) -> A11yModel {
        A11yModel {
            role: self.role,
            bounds: self.bounds,
            label: match self.label {
                Some(s) => Some(s@),
                None => None,
            },
            actionable: self.actionable,
            children: self.children@,
        }
    }
}

/// The whole tree: its nodes by id, children before parents, the id of its root and the id of
/// the node in focus.
#[derive(Debug)]
pub struct TreeUpdate {
    pub nodes: Vec<(u64, A11yNode)>,
    pub root: u64,
    pub focus: u64,
}

/// The entries of a tree as mathematics.
pub open spec fn entry_models(s: Seq<(u64, A11yNode)>) -> Seq<(u64, A11yModel)> {
    s.map_values(|e: (u64, A11yNode)| (e.0, e.1@))
}

/// The id of the window, which no node of a document has.
pub const ROOT_ID: u64 = 0;

/// What a kind of node is to a screen reader.
pub open spec fn role_of(kind: Seq<char>) -> Role {
    if kind == "Text"@ {
        Role::Label
    } else if kind == "Button"@ {
        Role::Button
    } else if kind == "Stack"@ || kind == "Row"@ || kind == "Column"@ || kind == "Grid"@ {
        Role::Group
    } else {
        Role::GenericContainer
    }
}

/// What a kind of node is to a screen reader. Decoration and unknown kinds are containers without
/// a meaning of their own.
pub fn role_for_kind(kind: &str) -> (r: Role)
    ensures
        r == role_of(kind@),
{
    if same(kind, "Text") {
        Role::Label
    } else if same(kind, "Button") {
        Role::Button
    } else if same(kind, "Stack") || same(kind, "Row") || same(kind, "Column") || same(kind, "Grid") {
        Role::Group
    } else {
        Role::GenericContainer
    }
}

/// The id of a node in the tree: one more than its own.
pub fn a11y_id(id: NodeId) -> (r: u64)
    requires
        id.0 < u64::MAX,
    ensures
        r == id.0 + 1,
        r != ROOT_ID,
{
    id.0 + 1
}

/// The first of three texts that is there.
pub open spec fn name_at(n: NodeModel) -> Option<Seq<char>> {
    if text_at(n, "label"@) is Some {
        text_at(n, "label"@)
    } else if text_at(n, "name"@) is Some {
        text_at(n, "name"@)
    } else {
        text_at(n, "content"@)
    }
}

fn name_of(node: &Node) -> (r: Option<String>)
    ensures
        match r {
            Some(s) => name_at(node@) == Some(s@),
            None => name_at(node@) is None,
        },
{
    match text_of(node, "label") {
        Some(s) => Some(s),
        None => match text_of(node, "name") {
            Some(s) => Some(s),
            None => text_of(node, "content"),
        },
    }
}

/// A rectangle by its corners.
pub open spec fn bounds_at(fl: Unit, r: ComputedRect) -> Bounds {
    Bounds {
        x0: bits(fl(FloatQuery::Widen { single: r.x })),
        y0: bits(fl(FloatQuery::Widen { single: r.y })),
        x1: bits(fl(FloatQuery::Widen { single: add32(fl, r.x, r.w) })),
        y1: bits(fl(FloatQuery::Widen { single: add32(fl, r.y, r.h) })),
    }
}

fn bounds_of<F: Fn(&FloatOp) -> Option<u64>>(r: ComputedRect, fl: &F) -> (b: Bounds)
    requires
        steady(*fl),
    ensures
        b == bounds_at(unit(*fl), r),
{
    Bounds {
        x0: widen(fl, r.x),
        y0: widen(fl, r.y),
        x1: widen(fl, sum(fl, r.x, r.w)),
        y1: widen(fl, sum(fl, r.y, r.h)),
    }
}

/// A node of a document as a node of the tree.
pub open spec fn described(fl: Unit, n: NodeModel, r: ComputedRect, children: Seq<u64>) -> A11yModel {
    A11yModel {
        role: role_of(n.kind),
        bounds: Some(bounds_at(fl, r)),
        label: name_at(n),
        actionable: n.callbacks.dom().contains("click"@),
        children,
    }
}

/// What a walk depends on.
pub struct Shown {
    pub tree: Tree,
    pub layout: LayoutModel,
    pub fl: Unit,
}

/// What walking a node comes to.
pub enum Walk {
    /// The node is not there or was not laid out.
    Skipped,
    /// There are more levels than were allowed.
    Deeper,
    /// The entries so far, with those of the node and what is under it.
    Out(Seq<(u64, A11yModel)>),
}

/// The walk of a node, at most `n` levels deep, behind the entries so far.
pub open spec fn walked(g: Shown, id: NodeId, n: nat, out: Seq<(u64, A11yModel)>) -> Walk
    decreases n, 0int, 0int,
{
    if !g.tree.nodes.dom().contains(id) || !g.layout.rects.dom().contains(id) {
        Walk::Skipped
    } else if n == 0 {
        Walk::Deeper
    } else {
        let node = g.tree.nodes[id];
        match walked_all(g, node.children, 0, (n - 1) as nat, out, Seq::empty()) {
            None => Walk::Deeper,
            Some((below, ids)) => Walk::Out(
                below.push(((id.0 + 1) as u64, described(g.fl, node, g.layout.rects[id], ids))),
            ),
        }
    }
}

/// The walk of the children from `i` on, with the ids of those that were walked.
pub open spec fn walked_all(
    g: Shown,
    kids: Seq<NodeId>,
    i: int,
    n: nat,
    out: Seq<(u64, A11yModel)>,
    ids: Seq<u64>,
) -> Option<(Seq<(u64, A11yModel)>, Seq<u64>)>
    decreases n, 1int, kids.len() - i,
{
    if i < 0 || i >= kids.len() {
        Some((out, ids))
    } else {
        match walked(g, kids[i], n, out) {
            Walk::Skipped => walked_all(g, kids, i + 1, n, out, ids),
            Walk::Deeper => None,
            Walk::Out(below) => walked_all(g, kids, i + 1, n, below, ids.push((kids[i].0 + 1) as u64)),
        }
    }
}

enum Walked {
    Skipped,
    Deeper,
    Done(u64),
}

fn walk<F: Fn(&FloatOp) -> Option<u64>>(
    doc: &Document,
    layout: &Layout,
    id: NodeId,
    out: &mut Vec<(u64, A11yNode)>,
    depth: u64,
    fl: &F,
) -> (r: Walked)
    requires
        steady(*fl),
        !doc@.tree.nodes.dom().contains(NodeId(u64::MAX)),
    ensures
        match walked(
            Shown { tree: doc@.tree, layout: layout@, fl: unit(*fl) },
            id,
            depth as nat,
            entry_models(old(out)@),
        ) {
            Walk::Skipped => r is Skipped && final(out)@ == old(out)@,
            Walk::Deeper => r is Deeper,
            Walk::Out(s) => r == Walked::Done((id.0 + 1) as u64) && entry_models(final(out)@) == s,
        },
    decreases depth, 0int,
{
    let node = match doc.get(id) {
        Some(node) => node,
        None => {
            return Walked::Skipped;
        },
    };
    let rect = match layout.rect(id) {
        Some(rect) => rect,
        None => {
            return Walked::Skipped;
        },
    };
    if depth == 0 {
        return Walked::Deeper;
    }
    match walk_children(doc, layout, &node.children, out, depth - 1, fl) {
        None => Walked::Deeper,
        Some(children) => {
            let a = A11yNode {
                role: role_for_kind(node.kind.as_str()),
                bounds: Some(bounds_of(rect, fl)),
                label: name_of(node),
                actionable: node.callbacks.contains_key("click"),
                children,
            };
            let aid: u64 = a11y_id(id);
            let ghost was = entry_models(out@);
            let ghost m = (aid, a@);
            assert(a@ =~= described(unit(*fl), node@, rect, children@));
            out.push((aid, a));
            assert(entry_models(out@) =~= was.push(m));
            Walked::Done(aid)
        },
    }
}

fn walk_children<F: Fn(&FloatOp) -> Option<u64>>(
    doc: &Document,
    layout: &Layout,
    kids: &Vec<NodeId>,
    out: &mut Vec<(u64, A11yNode)>,
    depth: u64,
    fl: &F,
) -> (r: Option<Vec<u64>>)
    requires
        steady(*fl),
        !doc@.tree.nodes.dom().contains(NodeId(u64::MAX)),
    ensures
        match walked_all(
            Shown { tree: doc@.tree, layout: layout@, fl: unit(*fl) },
            kids@,
            0,
            depth as nat,
            entry_models(old(out)@),
            Seq::empty(),
        ) {
            None => r is None,
            Some((s, ids)) => r is Some && r->0@ == ids && entry_models(final(out)@) == s,
        },
    decreases depth, 1int,
{
    let ghost g = Shown { tree: doc@.tree, layout: layout@, fl: unit(*fl) };
    let ghost goal = walked_all(g, kids@, 0, depth as nat, entry_models(out@), Seq::empty());
    let mut ids: Vec<u64> = Vec::new();
    let mut i: usize = 0;
    assert(ids@ =~= Seq::empty());
    while i < kids.len()
        invariant
            steady(*fl),
            !doc@.tree.nodes.dom().contains(NodeId(u64::MAX)),
            g == (Shown { tree: doc@.tree, layout: layout@, fl: unit(*fl) }),
            i <= kids@.len(),
            goal == walked_all(g, kids@, 0, depth as nat, entry_models(old(out)@), Seq::empty()),
            goal == walked_all(g, kids@, i as int, depth as nat, entry_models(out@), ids@),
        decreases kids.len() - i,
    {
        match walk(doc, layout, kids[i], out, depth, fl) {
            Walked::Skipped => {},
            Walked::Deeper => {
                return None;
            },
            Walked::Done(aid) => {
                ids.push(aid);
            },
        }
        i += 1;
    }
    Some(ids)
}

proof fn lemma_walked_deeper(g: Shown, id: NodeId, n: nat, out: Seq<(u64, A11yModel)>)
    requires
        !(walked(g, id, n, out) is Deeper),
    ensures
        walked(g, id, n + 1, out) == walked(g, id, n, out),
    decreases n, 0int, 0int,
{
    if g.tree.nodes.dom().contains(id) && g.layout.rects.dom().contains(id) {
        assert((n + 1 - 1) as nat == (n - 1) as nat + 1);
        lemma_walked_all_deeper(
            g,
            g.tree.nodes[id].children,
            0,
            (n - 1) as nat,
            out,
            Seq::empty(),
        );
    }
}

proof fn lemma_walked_all_deeper(
    g: Shown,
    kids: Seq<NodeId>,
    i: int,
    n: nat,
    out: Seq<(u64, A11yModel)>,
    ids: Seq<u64>,
)
    requires
        walked_all(g, kids, i, n, out, ids) is Some,
    ensures
        walked_all(g, kids, i, n + 1, out, ids) == walked_all(g, kids, i, n, out, ids),
    decreases n, 1int, kids.len() - i,
{
    if 0 <= i < kids.len() {
        lemma_walked_deeper(g, kids[i], n, out);
        match walked(g, kids[i], n, out) {
            Walk::Out(below) => {
                lemma_walked_all_deeper(g, kids, i + 1, n, below, ids.push((kids[i].0 + 1) as u64));
            },
            _ => {
                lemma_walked_all_deeper(g, kids, i + 1, n, out, ids);
            },
        }
    }
}

/// Where a walk ends within some depth, a greater depth changes nothing.
pub proof fn lemma_walk_grows(g: Shown, id: NodeId, n: nat, m: nat, out: Seq<(u64, A11yModel)>)
    requires
        !(walked(g, id, n, out) is Deeper),
        n <= m,
    ensures
        walked(g, id, m, out) == walked(g, id, n, out),
    decreases m - n,
{
    if n < m {
        lemma_walked_deeper(g, id, n, out);
        lemma_walk_grows(g, id, n + 1, m, out);
    }
}

/// The walk comes to an end: no chain of laid out nodes leads back to its start.
pub open spec fn walkable(g: Shown) -> bool {
    match g.tree.root {
        None => true,
        Some(root) => exists|n: u64| !(#[trigger] walked(g, root, n as nat, Seq::empty()) is Deeper),
    }
}

/// The walk of a document from its root.
pub open spec fn walk_of(g: Shown) -> Walk {
    match g.tree.root {
        None => Walk::Skipped,
        Some(root) => walked(
            g,
            root,
            (choose|n: u64| !(#[trigger] walked(g, root, n as nat, Seq::empty()) is Deeper)) as nat,
            Seq::empty(),
        ),
    }
}

/// The window at the root of the tree.
pub open spec fn window(children: Seq<u64>) -> A11yModel {
    A11yModel { role: Role::Window, bounds: None, label: None, actionable: false, children }
}

/// The entries of the tree: those of the document, and the window that holds its root.
pub open spec fn tree_of(g: Shown) -> Seq<(u64, A11yModel)> {
    match walk_of(g) {
        Walk::Out(s) => s.push((ROOT_ID, window(seq![((g.tree.root->0).0 + 1) as u64]))),
        _ => seq![(ROOT_ID, window(Seq::empty()))],
    }
}

/// The accessibility tree of a document that was laid out: an entry for every node that was, and
/// one for the window. The focus is on `focused`, or on the window.
pub fn build_tree<F: Fn(&FloatOp) -> Option<u64>>(
    doc: &Document,
    layout: &Layout,
    focused: Option<NodeId>,
    fl: &F,
) -> (r: TreeUpdate)
    requires
        steady(*fl),
        !doc@.tree.nodes.dom().contains(NodeId(u64::MAX)),
        focused != Some(NodeId(u64::MAX)),
        walkable(Shown { tree: doc@.tree, layout: layout@, fl: unit(*fl) }),
    ensures
        entry_models(r.nodes@) == tree_of(
            Shown { tree: doc@.tree, layout: layout@, fl: unit(*fl) },
        ),
        r.root == ROOT_ID,
        r.focus == match focused {
            Some(id) => (id.0 + 1) as u64,
            None => ROOT_ID,
        },
{
    let ghost g = Shown { tree: doc@.tree, layout: layout@, fl: unit(*fl) };
    let mut nodes: Vec<(u64, A11yNode)> = Vec::new();
    let mut children: Vec<u64> = Vec::new();
    assert(entry_models(nodes@) =~= Seq::empty());
    assert(children@ =~= Seq::empty());
    match doc.root() {
        Some(root) => {
            let ghost enough: u64 = choose|n: u64|
                !(#[trigger] walked(g, root, n as nat, Seq::empty()) is Deeper);
            let mut depth: u64 = doc.len() as u64;
            let mut going = true;
            while going
                invariant
                    steady(*fl),
                    !doc@.tree.nodes.dom().contains(NodeId(u64::MAX)),
                    g == (Shown { tree: doc@.tree, layout: layout@, fl: unit(*fl) }),
                    g.tree.root == Some(root),
                    enough == choose|n: u64|
                        !(#[trigger] walked(g, root, n as nat, Seq::empty()) is Deeper),
                    !(walked(g, root, enough as nat, Seq::empty()) is Deeper),
                    going ==> children@ == Seq::<u64>::empty(),
                    !going ==> match walk_of(g) {
                        Walk::Out(s) => entry_models(nodes@) == s && children@ == seq![
                            (root.0 + 1) as u64,
                        ],
                        _ => entry_models(nodes@) == Seq::<(u64, A11yModel)>::empty() && children@
                            == Seq::<u64>::empty(),
                    },
                decreases (if going {
                    1int
                } else {
                    0int
                }), (if depth < enough {
                    enough - depth
                } else {
                    0
                }),
            {
                let mut out: Vec<(u64, A11yNode)> = Vec::new();
                assert(entry_models(out@) =~= Seq::empty());
                let done = walk(doc, layout, root, &mut out, depth, fl);
                proof {
                    if enough <= depth {
                        lemma_walk_grows(g, root, enough as nat, depth as nat, Seq::empty());
                    } else if !(walked(g, root, depth as nat, Seq::empty()) is Deeper) {
                        lemma_walk_grows(g, root, depth as nat, enough as nat, Seq::empty());
                    }
                }
                match done {
                    Walked::Deeper => {
                        depth = depth + 1;
                    },
                    Walked::Skipped => {
                        nodes = out;
                        going = false;
                    },
                    Walked::Done(aid) => {
                        nodes = out;
                        children.push(aid);
                        assert(children@ =~= seq![aid]);
                        going = false;
                    },
                }
            }
        },
        None => {},
    }
    let ghost below = entry_models(nodes@);
    let win = A11yNode { role: Role::Window, bounds: None, label: None, actionable: false, children };
    let ghost m = (ROOT_ID, win@);
    assert(win@ =~= window(children@));
    nodes.push((ROOT_ID, win));
    assert(entry_models(nodes@) =~= below.push(m));
    assert(Seq::<(u64, A11yModel)>::empty().push(m) =~= seq![m]);
    let focus: u64 = match focused {
        Some(id) => a11y_id(id),
        None => ROOT_ID,
    };
    TreeUpdate { nodes, root: ROOT_ID, focus }
}

} // verus!
