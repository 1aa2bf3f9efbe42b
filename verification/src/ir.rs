//! The document: a tree of nodes that changes only by mutations, each of them logged with its
//! origin.
use vstd::prelude::*;

use crate::coherence::{above, ancestor, is_above};
use crate::node::{
    bare_node, find_id, finite_node, given_parent, has_id, held, lacking, sorted_ids, without_id, Node, NodeId, NodeModel, NodeTable,
};
use crate::text::copy;
use crate::value::{Action, ActionModel, Binding, Value, ValueModel};

verus! {

/// Who made an edit.
#[derive(Debug, Clone, Copy, PartialEq, Eq, Structural)]
pub enum Origin {
    Human,
    Ai,
    System,
}

/// One change to a document.
#[derive(Debug, PartialEq)]
pub enum Mutation {
    /// Adds a node with nothing in it.
    CreateNode { id: NodeId, kind: String },
    /// Makes an existing node the root.
    SetRoot { id: NodeId },
    SetProp { id: NodeId, key: String, value: Value },
    RemoveProp { id: NodeId, key: String },
    /// Puts `child` at the end of the children of `parent`, unless it is among them already; a
    /// parent that had it before has it no more.
    AppendChild { parent: NodeId, child: NodeId },
    RemoveChild { parent: NodeId, child: NodeId },
    /// Deletes a node; its children stay, without a parent.
    RemoveNode { id: NodeId },
    SetCallback { id: NodeId, event: String, action: Action },
    SetBinding { id: NodeId, key: String, binding: Binding },
    /// Records that a callback was fired; the tree stays as it is.
    Invoke { id: NodeId, event: String },
    RemoveCallback { id: NodeId, event: String },
    RemoveBinding { id: NodeId, key: String },
    /// Brings a removed node back with all it held, under its parent if that is still there. Of its
    /// children it gets back those that have no parent and do not lie above it.
    Reconstruct { id: NodeId, node: Box<Node>, was_root: bool },
}

/// A [`Mutation`] as mathematics.
#[allow(inconsistent_fields)]
pub enum MutationModel {
    CreateNode { id: NodeId, kind: Seq<char> },
    SetRoot { id: NodeId },
    SetProp { id: NodeId, key: Seq<char>, value: ValueModel },
    RemoveProp { id: NodeId, key: Seq<char> },
    AppendChild { parent: NodeId, child: NodeId },
    RemoveChild { parent: NodeId, child: NodeId },
    RemoveNode { id: NodeId },
    SetCallback { id: NodeId, event: Seq<char>, action: ActionModel },
    SetBinding { id: NodeId, key: Seq<char>, binding: Seq<char> },
    Invoke { id: NodeId, event: Seq<char> },
    RemoveCallback { id: NodeId, event: Seq<char> },
    RemoveBinding { id: NodeId, key: Seq<char> },
    Reconstruct { id: NodeId, node: NodeModel, was_root: bool },
}

impl View for Mutation {
    type V = MutationModel;

    open spec fn view(&self) -> MutationModel {
        match *self {
            Mutation::CreateNode { id, kind } => MutationModel::CreateNode { id, kind: kind@ },
            Mutation::SetRoot { id } => MutationModel::SetRoot { id },
            Mutation::SetProp { id, key, value } => MutationModel::SetProp {
                id,
                key: key@,
                value: value@,
            },
            Mutation::RemoveProp { id, key } => MutationModel::RemoveProp { id, key: key@ },
            Mutation::AppendChild { parent, child } => MutationModel::AppendChild { parent, child },
            Mutation::RemoveChild { parent, child } => MutationModel::RemoveChild { parent, child },
            Mutation::RemoveNode { id } => MutationModel::RemoveNode { id },
            Mutation::SetCallback { id, event, action } => MutationModel::SetCallback {
                id,
                event: event@,
                action: action@,
            },
            Mutation::SetBinding { id, key, binding } => MutationModel::SetBinding {
                id,
                key: key@,
                binding: binding@,
            },
            Mutation::Invoke { id, event } => MutationModel::Invoke { id, event: event@ },
            Mutation::RemoveCallback { id, event } => MutationModel::RemoveCallback {
                id,
                event: event@,
            },
            Mutation::RemoveBinding { id, key } => MutationModel::RemoveBinding { id, key: key@ },
            Mutation::Reconstruct { id, node, was_root } => MutationModel::Reconstruct {
                id,
                node: node@,
                was_root,
            },
        }
    }
}

impl Clone for Mutation {
    fn clone(&self) -> (r: Self)
        ensures
            r@ == self@,
    {
        match self {
            Mutation::CreateNode { id, kind } => Mutation::CreateNode { id: *id, kind: kind.clone() },
            Mutation::SetRoot { id } => Mutation::SetRoot { id: *id },
            Mutation::SetProp { id, key, value } => Mutation::SetProp {
                id: *id,
                key: key.clone(),
                value: value.clone(),
            },
            Mutation::RemoveProp { id, key } => Mutation::RemoveProp { id: *id, key: key.clone() },
            Mutation::AppendChild { parent, child } => Mutation::AppendChild {
                parent: *parent,
                child: *child,
            },
            Mutation::RemoveChild { parent, child } => Mutation::RemoveChild {
                parent: *parent,
                child: *child,
            },
            Mutation::RemoveNode { id } => Mutation::RemoveNode { id: *id },
            Mutation::SetCallback { id, event, action } => Mutation::SetCallback {
                id: *id,
                event: event.clone(),
                action: action.clone(),
            },
            Mutation::SetBinding { id, key, binding } => Mutation::SetBinding {
                id: *id,
                key: key.clone(),
                binding: binding.clone(),
            },
            Mutation::Invoke { id, event } => Mutation::Invoke { id: *id, event: event.clone() },
            Mutation::RemoveCallback { id, event } => Mutation::RemoveCallback {
                id: *id,
                event: event.clone(),
            },
            Mutation::RemoveBinding { id, key } => Mutation::RemoveBinding {
                id: *id,
                key: key.clone(),
            },
            Mutation::Reconstruct { id, node, was_root } => Mutation::Reconstruct {
                id: *id,
                node: Box::new((**node).clone()),
                was_root: *was_root,
            },
        }
    }
}

/// A mutation together with who made it.
#[derive(Debug, PartialEq)]
pub struct Edit {
    pub origin: Origin,
    pub mutation: Mutation,
}

/// An [`Edit`] as mathematics.
pub struct EditModel {
    pub origin: Origin,
    pub mutation: MutationModel,
}

impl View for Edit {
    type V = EditModel;

    open spec fn view(&self) -> EditModel {
        EditModel { origin: self.origin, mutation: self.mutation@ }
    }
}

impl Clone for Edit {
    fn clone(&self) -> (r: Self)
        ensures
            r@ == self@,
    {
        Edit { origin: self.origin, mutation: self.mutation.clone() }
    }
}

/// The models of a sequence of edits.
pub open spec fn edit_models(s: Seq<Edit>) -> Seq<EditModel> {
    s.map_values(|e: Edit| e@)
}

/// Why a mutation was refused.
#[derive(Debug, Clone, Copy, PartialEq, Eq, Structural)]
pub enum IrError {
    NoSuchNode(NodeId),
    DuplicateNode(NodeId),
    /// The one is no child of the other, or cannot become one, as it lies above it.
    NotAChild { parent: NodeId, child: NodeId },
}

/// The tree of a document: its nodes and its root.
#[verifier::ext_equal]
pub struct Tree {
    pub nodes: Map<NodeId, NodeModel>,
    pub root: Option<NodeId>,
}

/// Every map in the tree is finite, as in every document.
pub open spec fn finite_tree(t: Tree) -> bool {
    &&& t.nodes.dom().finite()
    &&& forall|x: NodeId| #[trigger] t.nodes.dom().contains(x) ==> finite_node(t.nodes[x])
}

/// A tree with no nodes and no root.
pub open spec fn empty_tree() -> Tree {
    Tree { nodes: Map::empty(), root: None }
}

/// The tree with `n` under `id`.
pub open spec fn with_node(t: Tree, id: NodeId, n: NodeModel) -> Tree {
    Tree { nodes: t.nodes.insert(id, n), root: t.root }
}

/// The children after `child` is put at the end, unless it is among them already.
pub open spec fn with_child(children: Seq<NodeId>, child: NodeId) -> Seq<NodeId> {
    if children.contains(child) {
        children
    } else {
        children.push(child)
    }
}

/// The tree after a node other than `keep` that had `child` has it no more.
pub open spec fn taken_away(t: Tree, child: NodeId, keep: NodeId) -> Tree {
    match t.nodes[child].parent {
        Some(q) => if q != keep && t.nodes.dom().contains(q) {
            let n = t.nodes[q];
            with_node(t, q, NodeModel { children: lacking(n.children, child), ..n })
        } else {
            t
        },
        None => t,
    }
}

/// The tree after `child` was hung under `parent`.
pub open spec fn hung(t: Tree, parent: NodeId, child: NodeId) -> Tree {
    let t1 = taken_away(t, child, parent);
    let p = t1.nodes[parent];
    let t2 = with_node(t1, parent, NodeModel { children: with_child(p.children, child), ..p });
    let c = t2.nodes[child];
    with_node(t2, child, NodeModel { parent: Some(parent), ..c })
}

/// The tree without a node. The parent of the node has it no more, and its children have no parent.
pub open spec fn without_node(t: Tree, id: NodeId) -> Tree {
    let rest = given_parent(t.nodes.remove(id), held(t.nodes, id), None);
    let nodes = match t.nodes[id].parent {
        Some(p) => if rest.dom().contains(p) {
            let n = rest[p];
            rest.insert(p, NodeModel { children: lacking(n.children, id), ..n })
        } else {
            rest
        },
        None => rest,
    };
    Tree {
        nodes,
        root: if t.root == Some(id) {
            None
        } else {
            t.root
        },
    }
}

/// The parent that a node gets back: the one it names, if that is there.
pub open spec fn parent_back(t: Tree, node: NodeModel) -> Option<NodeId> {
    match node.parent {
        Some(p) => if t.nodes.dom().contains(p) {
            Some(p)
        } else {
            None
        },
        None => None,
    }
}

/// A node under `parent` can get a child back: it is there, has no parent or names the node that
/// comes back, and does not lie above it.
pub open spec fn comes_back(t: Tree, id: NodeId, parent: Option<NodeId>, child: NodeId) -> bool {
    &&& t.nodes.dom().contains(child)
    &&& t.nodes[child].parent is None || t.nodes[child].parent == Some(id)
    &&& match parent {
        Some(p) => !above(t, child, p),
        None => true,
    }
}

/// The children that a node gets back, each once.
pub open spec fn children_back(t: Tree, id: NodeId, parent: Option<NodeId>, children: Seq<NodeId>) -> Seq<NodeId>
    decreases children.len(),
{
    if children.len() == 0 {
        children
    } else {
        let before = children_back(t, id, parent, children.drop_last());
        if comes_back(t, id, parent, children.last()) {
            with_child(before, children.last())
        } else {
            before
        }
    }
}

/// The tree with a removed node brought back.
pub open spec fn with_back(t: Tree, id: NodeId, node: NodeModel, was_root: bool) -> Tree {
    let parent = parent_back(t, node);
    let children = children_back(t, id, parent, node.children);
    let n1 = given_parent(t.nodes, children.to_set(), Some(id)).insert(
        id,
        NodeModel { parent, children, ..node },
    );
    let nodes = match parent {
        Some(p) => {
            let n = n1[p];
            n1.insert(p, NodeModel { children: with_child(n.children, id), ..n })
        },
        None => n1,
    };
    Tree {
        nodes,
        root: if was_root {
            Some(id)
        } else {
            t.root
        },
    }
}

/// What a mutation makes of a tree, or why it is refused.
pub open spec fn step(t: Tree, m: MutationModel) -> Result<Tree, IrError> {
    match m {
        MutationModel::CreateNode { id, kind } => if t.nodes.dom().contains(id) {
            Err(IrError::DuplicateNode(id))
        } else {
            Ok(with_node(t, id, bare_node(kind)))
        },
        MutationModel::SetRoot { id } => if t.nodes.dom().contains(id) {
            Ok(Tree { nodes: t.nodes, root: Some(id) })
        } else {
            Err(IrError::NoSuchNode(id))
        },
        MutationModel::SetProp { id, key, value } => if t.nodes.dom().contains(id) {
            let n = t.nodes[id];
            Ok(with_node(t, id, NodeModel { props: n.props.insert(key, value), ..n }))
        } else {
            Err(IrError::NoSuchNode(id))
        },
        MutationModel::RemoveProp { id, key } => if t.nodes.dom().contains(id) {
            let n = t.nodes[id];
            Ok(with_node(t, id, NodeModel { props: n.props.remove(key), ..n }))
        } else {
            Err(IrError::NoSuchNode(id))
        },
        MutationModel::AppendChild { parent, child } => if !t.nodes.dom().contains(parent) {
            Err(IrError::NoSuchNode(parent))
        } else if !t.nodes.dom().contains(child) {
            Err(IrError::NoSuchNode(child))
        } else if above(t, child, parent) {
            Err(IrError::NotAChild { parent, child })
        } else {
            Ok(hung(t, parent, child))
        },
        MutationModel::RemoveChild { parent, child } => if !t.nodes.dom().contains(parent) {
            Err(IrError::NoSuchNode(parent))
        } else if !t.nodes[parent].children.contains(child) {
            Err(IrError::NotAChild { parent, child })
        } else {
            let p = t.nodes[parent];
            let at = p.children.index_of_first(child)->0;
            let t1 = with_node(t, parent, NodeModel { children: p.children.remove(at), ..p });
            if t1.nodes.dom().contains(child) {
                let c = t1.nodes[child];
                Ok(with_node(t1, child, NodeModel { parent: None, ..c }))
            } else {
                Ok(t1)
            }
        },
        MutationModel::RemoveNode { id } => if t.nodes.dom().contains(id) {
            Ok(without_node(t, id))
        } else {
            Err(IrError::NoSuchNode(id))
        },
        MutationModel::SetCallback { id, event, action } => if t.nodes.dom().contains(id) {
            let n = t.nodes[id];
            Ok(with_node(t, id, NodeModel { callbacks: n.callbacks.insert(event, action), ..n }))
        } else {
            Err(IrError::NoSuchNode(id))
        },
        MutationModel::SetBinding { id, key, binding } => if t.nodes.dom().contains(id) {
            let n = t.nodes[id];
            Ok(with_node(t, id, NodeModel { bindings: n.bindings.insert(key, binding), ..n }))
        } else {
            Err(IrError::NoSuchNode(id))
        },
        MutationModel::Invoke { id, .. } => if t.nodes.dom().contains(id) {
            Ok(t)
        } else {
            Err(IrError::NoSuchNode(id))
        },
        MutationModel::RemoveCallback { id, event } => if t.nodes.dom().contains(id) {
            let n = t.nodes[id];
            Ok(with_node(t, id, NodeModel { callbacks: n.callbacks.remove(event), ..n }))
        } else {
            Err(IrError::NoSuchNode(id))
        },
        MutationModel::RemoveBinding { id, key } => if t.nodes.dom().contains(id) {
            let n = t.nodes[id];
            Ok(with_node(t, id, NodeModel { bindings: n.bindings.remove(key), ..n }))
        } else {
            Err(IrError::NoSuchNode(id))
        },
        MutationModel::Reconstruct { id, node, was_root } => if t.nodes.dom().contains(id) {
            Err(IrError::DuplicateNode(id))
        } else {
            Ok(with_back(t, id, node, was_root))
        },
    }
}

/// A [`Document`] as mathematics.
#[verifier::ext_equal]
pub struct DocModel {
    pub tree: Tree,
    /// The next id that `fresh_id` hands out.
    pub next_id: u64,
    /// Every accepted edit, oldest first.
    pub log: Seq<EditModel>,
}

/// A document with nothing in it.
pub open spec fn empty_doc() -> DocModel {
    DocModel { tree: empty_tree(), next_id: 0, log: Seq::empty() }
}

/// What an edit makes of a document: an accepted one is logged, a refused one changes nothing.
pub open spec fn applied(d: DocModel, origin: Origin, m: MutationModel) -> DocModel {
    match step(d.tree, m) {
        Ok(tree) => DocModel {
            tree,
            log: d.log.push(EditModel { origin, mutation: m }),
            ..d
        },
        Err(_) => d,
    }
}

/// The answer to an edit.
pub open spec fn verdict(d: DocModel, m: MutationModel) -> Result<(), IrError> {
    match step(d.tree, m) {
        Ok(_) => Ok(()),
        Err(e) => Err(e),
    }
}

/// The interface as a tree of nodes, with the log of every edit that made it.
#[derive(Debug, PartialEq)]
pub struct Document {
    nodes: NodeTable,
    root: Option<NodeId>,
    next_id: u64,
    log: Vec<Edit>,
}

impl View for Document {
    type V = DocModel;

    closed spec fn view(&self) -> DocModel {
        DocModel {
            tree: Tree { nodes: self.nodes@, root: self.root },
            next_id: self.next_id,
            log: edit_models(self.log@),
        }
    }
}

impl Document {
    /// A document with no nodes, no root and an empty log.
    pub fn new() -> (r: Document)
        ensures
            r@ == empty_doc(),
    {
        let r = Document { nodes: NodeTable::new(), root: None, next_id: 0, log: Vec::new() };
        assert(r@ =~= empty_doc());
        r
    }

    /// A document from its parts.
    pub fn from_parts(nodes: NodeTable, root: Option<NodeId>, next_id: u64, log: Vec<Edit>) -> (r: Document)
        ensures
            r@ == (DocModel {
                tree: Tree { nodes: nodes@, root },
                next_id,
                log: edit_models(log@),
            }),
    {
        Document { nodes, root, next_id, log }
    }

    /// An id that this document has not handed out before.
    pub fn fresh_id(&mut self) -> (r: NodeId)
        requires
            old(self)@.next_id < u64::MAX,
        ensures
            r == NodeId(old(self)@.next_id),
            final(self)@ == (DocModel { next_id: (old(self)@.next_id + 1) as u64, ..old(self)@ }),
    {
        let id = NodeId(self.next_id);
        self.next_id = self.next_id + 1;
        id
    }

    /// The next id that `fresh_id` hands out.
    pub fn next_id(&self) -> (r: u64)
        ensures
            r == self@.next_id,
    {
        self.next_id
    }

    /// Applies an edit. An accepted edit goes to the end of the log; a refused one leaves the
    /// document as it was.
    pub fn apply(&mut self, edit: Edit) -> (r: Result<(), IrError>)
        ensures
            r == verdict(old(self)@, edit.mutation@),
            final(self)@ == applied(old(self)@, edit.origin, edit.mutation@),
    {
        match self.dispatch(&edit.mutation) {
            Err(e) => {
                return Err(e);
            },
            Ok(_) => {},
        }
        let ghost before = self.log@;
        self.log.push(edit);
        assert(edit_models(self.log@) =~= edit_models(before).push(edit@));
        Ok(())
    }

    /// Applies a mutation on behalf of `origin`.
    pub fn apply_from(&mut self, origin: Origin, mutation: Mutation) -> (r: Result<(), IrError>)
        ensures
            r == verdict(old(self)@, mutation@),
            final(self)@ == applied(old(self)@, origin, mutation@),
    {
        self.apply(Edit { origin, mutation })
    }

    /// Hangs a node under another.
    fn hang(&mut self, parent: NodeId, child: NodeId)
        requires
            old(self)@.tree.nodes.dom().contains(parent),
            old(self)@.tree.nodes.dom().contains(child),
            parent != child,
        ensures
            final(self)@ == (DocModel { tree: hung(old(self)@.tree, parent, child), ..old(self)@ }),
    {
        let ghost t = self@.tree;
        let was = self.nodes.get(child).unwrap().parent;
        match was {
            Some(q) => {
                if q != parent {
                    match self.nodes.take(q) {
                        Some(mut n) => {
                            let ghost had = n@;
                            n.children = without_id(&n.children, child);
                            assert(n@ =~= (NodeModel { children: lacking(had.children, child), ..had }));
                            self.nodes.put(q, n);
                        },
                        None => {},
                    }
                }
            },
            None => {},
        }
        assert(self.nodes@ =~= taken_away(t, child, parent).nodes);
        let mut p = self.nodes.take(parent).unwrap();
        if !has_id(&p.children, child) {
            p.children.push(child);
        }
        self.nodes.put(parent, p);
        let mut c = self.nodes.take(child).unwrap();
        c.parent = Some(parent);
        self.nodes.put(child, c);
        assert(self@.tree =~= hung(t, parent, child));
    }

    /// Deletes a node.
    fn drop_node(&mut self, id: NodeId)
        requires
            old(self)@.tree.nodes.dom().contains(id),
        ensures
            final(self)@ == (DocModel { tree: without_node(old(self)@.tree, id), ..old(self)@ }),
    {
        let ghost t = self@.tree;
        let orphans = self.nodes.held_by(id);
        let removed = self.nodes.take(id).unwrap();
        self.nodes.give_parent(&orphans, None);
        match removed.parent {
            Some(parent) => {
                match self.nodes.take(parent) {
                    Some(mut p) => {
                        let ghost had = p@;
                        p.children = without_id(&p.children, id);
                        assert(p@ =~= (NodeModel { children: lacking(had.children, id), ..had }));
                        self.nodes.put(parent, p);
                    },
                    None => {},
                }
            },
            None => {},
        }
        match self.root {
            Some(r) => {
                if r == id {
                    self.root = None;
                }
            },
            None => {},
        }
        assert(self@.tree =~= without_node(t, id));
    }

    /// The children that a node gets back.
    fn returning(&self, id: NodeId, parent: Option<NodeId>, children: &Vec<NodeId>) -> (r: Vec<NodeId>)
        ensures
            r@ == children_back(self@.tree, id, parent, children@),
    {
        let ghost t = self@.tree;
        let mut out: Vec<NodeId> = Vec::new();
        let mut i: usize = 0;
        assert(children@.take(0) =~= Seq::<NodeId>::empty());
        while i < children.len()
            invariant
                t == self@.tree,
                i <= children@.len(),
                out@ == children_back(t, id, parent, children@.take(i as int)),
            decreases children.len() - i,
        {
            let c = children[i];
            assert(children@.take(i + 1).drop_last() =~= children@.take(i as int));
            let free = match self.get(c) {
                Some(n) => match n.parent {
                    Some(q) => q == id,
                    None => true,
                },
                None => false,
            };
            let below = match parent {
                Some(p) => !is_above(self, c, p),
                None => true,
            };
            if free && below && !has_id(&out, c) {
                out.push(c);
            }
            i += 1;
        }
        assert(children@.take(i as int) =~= children@);
        out
    }

    /// Brings a removed node back.
    fn bring_back(&mut self, id: NodeId, node: &Node, was_root: bool)
        requires
            !old(self)@.tree.nodes.dom().contains(id),
        ensures
            final(self)@ == (DocModel { tree: with_back(old(self)@.tree, id, node@, was_root), ..old(self)@ }),
    {
        let ghost t = self@.tree;
        let parent = match node.parent {
            Some(p) => if self.nodes.contains(p) {
                Some(p)
            } else {
                None
            },
            None => None,
        };
        let children = self.returning(id, parent, &node.children);
        self.nodes.give_parent(&children, Some(id));
        let mut back = node.clone();
        back.parent = parent;
        back.children = children;
        assert(back@ =~= (NodeModel { parent, children: back@.children, ..node@ }));
        self.nodes.put(id, back);
        match parent {
            Some(p) => {
                let mut n = self.nodes.take(p).unwrap();
                if !has_id(&n.children, id) {
                    n.children.push(id);
                }
                self.nodes.put(p, n);
            },
            None => {},
        }
        if was_root {
            self.root = Some(id);
        }
        assert(self@.tree =~= with_back(t, id, node@, was_root));
    }

    /// Performs a mutation without logging it.
    pub(crate) fn dispatch(&mut self, m: &Mutation) -> (r: Result<(), IrError>)
        ensures
            r == verdict(old(self)@, m@),
            r is Err ==> final(self)@ == old(self)@,
            r is Ok ==> final(self)@ == (DocModel { tree: step(old(self)@.tree, m@)->Ok_0, ..old(self)@ }),
    {
        let ghost t = self@.tree;
        match m {
            Mutation::CreateNode { id, kind } => {
                if self.nodes.contains(*id) {
                    return Err(IrError::DuplicateNode(*id));
                }
                self.nodes.put(*id, Node::new(kind.clone()));
            },
            Mutation::SetRoot { id } => {
                if !self.nodes.contains(*id) {
                    return Err(IrError::NoSuchNode(*id));
                }
                self.root = Some(*id);
            },
            Mutation::SetProp { id, key, value } => {
                if !self.nodes.contains(*id) {
                    return Err(IrError::NoSuchNode(*id));
                }
                let mut node = self.nodes.take(*id).unwrap();
                let ghost n = node;
                node.props.insert(key.clone(), value.clone());
                assert(node@.props =~= n@.props.insert(key@, value@));
                self.nodes.put(*id, node);
            },
            Mutation::RemoveProp { id, key } => {
                if !self.nodes.contains(*id) {
                    return Err(IrError::NoSuchNode(*id));
                }
                let mut node = self.nodes.take(*id).unwrap();
                let ghost n = node;
                node.props.remove(key.as_str());
                assert(node@.props =~= n@.props.remove(key@));
                self.nodes.put(*id, node);
            },
            Mutation::AppendChild { parent, child } => {
                if !self.nodes.contains(*parent) {
                    return Err(IrError::NoSuchNode(*parent));
                }
                if !self.nodes.contains(*child) {
                    return Err(IrError::NoSuchNode(*child));
                }
                if is_above(&*self, *child, *parent) {
                    return Err(IrError::NotAChild { parent: *parent, child: *child });
                }
                assert(ancestor(t, *parent, 0) == Some(*parent));
                self.hang(*parent, *child);
            },
            Mutation::RemoveChild { parent, child } => {
                if !self.nodes.contains(*parent) {
                    return Err(IrError::NoSuchNode(*parent));
                }
                let mut p = self.nodes.take(*parent).unwrap();
                let at = find_id(&p.children, *child);
                match at {
                    None => {
                        self.nodes.put(*parent, p);
                        assert(self@.tree.nodes =~= t.nodes);
                        return Err(IrError::NotAChild { parent: *parent, child: *child });
                    },
                    Some(i) => {
                        let _gone = p.children.remove(i);
                    },
                }
                self.nodes.put(*parent, p);
                match self.nodes.take(*child) {
                    Some(mut c) => {
                        c.parent = None;
                        self.nodes.put(*child, c);
                    },
                    None => {},
                }
            },
            Mutation::RemoveNode { id } => {
                if !self.nodes.contains(*id) {
                    return Err(IrError::NoSuchNode(*id));
                }
                self.drop_node(*id);
            },
            Mutation::SetCallback { id, event, action } => {
                if !self.nodes.contains(*id) {
                    return Err(IrError::NoSuchNode(*id));
                }
                let mut node = self.nodes.take(*id).unwrap();
                let ghost n = node;
                node.callbacks.insert(event.clone(), action.clone());
                assert(node@.callbacks =~= n@.callbacks.insert(event@, action@));
                self.nodes.put(*id, node);
            },
            Mutation::SetBinding { id, key, binding } => {
                if !self.nodes.contains(*id) {
                    return Err(IrError::NoSuchNode(*id));
                }
                let mut node = self.nodes.take(*id).unwrap();
                let ghost n = node;
                node.bindings.insert(key.clone(), binding.clone());
                assert(node@.bindings =~= n@.bindings.insert(key@, binding@));
                self.nodes.put(*id, node);
            },
            Mutation::Invoke { id, event: _ } => {
                if !self.nodes.contains(*id) {
                    return Err(IrError::NoSuchNode(*id));
                }
            },
            Mutation::RemoveCallback { id, event } => {
                if !self.nodes.contains(*id) {
                    return Err(IrError::NoSuchNode(*id));
                }
                let mut node = self.nodes.take(*id).unwrap();
                let ghost n = node;
                node.callbacks.remove(event.as_str());
                assert(node@.callbacks =~= n@.callbacks.remove(event@));
                self.nodes.put(*id, node);
            },
            Mutation::RemoveBinding { id, key } => {
                if !self.nodes.contains(*id) {
                    return Err(IrError::NoSuchNode(*id));
                }
                let mut node = self.nodes.take(*id).unwrap();
                let ghost n = node;
                node.bindings.remove(key.as_str());
                assert(node@.bindings =~= n@.bindings.remove(key@));
                self.nodes.put(*id, node);
            },
            Mutation::Reconstruct { id, node, was_root } => {
                if self.nodes.contains(*id) {
                    return Err(IrError::DuplicateNode(*id));
                }
                self.bring_back(*id, &**node, *was_root);
            },
        }
        assert(self@.tree =~= step(t, m@)->Ok_0);
        Ok(())
    }

    /// The node under `id`, if there is one.
    pub fn get(&self, id: NodeId) -> (r: Option<&Node>)
        ensures
            r is Some <==> self@.tree.nodes.dom().contains(id),
            r matches Some(n) ==> n@ == self@.tree.nodes[id],
    {
        self.nodes.get(id)
    }

    /// The root, if one was set.
    pub fn root(&self) -> (r: Option<NodeId>)
        ensures
            r == self@.tree.root,
    {
        self.root
    }

    /// How many nodes the document holds.
    pub fn len(&self) -> (r: usize)
        ensures
            r == self@.tree.nodes.len(),
            self@.tree.nodes.dom().finite(),
    {
        self.nodes.len()
    }

    /// `true` exactly when the document holds no node.
    pub fn is_empty(&self) -> (r: bool)
        ensures
            r == (self@.tree.nodes.len() == 0),
    {
        self.nodes.len() == 0
    }

    /// The ids of the nodes in ascending order.
    pub fn ids(&self) -> (r: Vec<NodeId>)
        ensures
            r@ == sorted_ids(self@.tree.nodes.dom()),
            crate::node::ascending(r@),
            r@.to_set() == self@.tree.nodes.dom(),
            self@.tree.nodes.dom().finite(),
    {
        self.nodes.ids()
    }

    /// Every accepted edit, oldest first.
    pub fn audit_log(&self) -> (r: &[Edit])
        ensures
            edit_models(r@) == self@.log,
    {
        self.log.as_slice()
    }

    /// Fires the callback for `event` on a node on behalf of `origin`: the action it names is
    /// returned and the invocation is logged. Without such a callback nothing happens.
    pub fn fire(&mut self, id: NodeId, event: &str, origin: Origin) -> (r: Option<Action>)
        ensures
            r is Some <==> has_callback(old(self)@.tree, id, event@),
            r matches Some(a) ==> {
                &&& a@ == old(self)@.tree.nodes[id].callbacks[event@]
                &&& final(self)@ == applied(
                    old(self)@,
                    origin,
                    MutationModel::Invoke { id, event: event@ },
                )
            },
            r is None ==> final(self)@ == old(self)@,
    {
        let found = match self.nodes.get(id) {
            Some(node) => match node.callbacks.get(event) {
                Some(a) => Some(a.clone()),
                None => None,
            },
            None => None,
        };
        match found {
            None => None,
            Some(action) => {
                match self.apply_from(origin, Mutation::Invoke { id, event: copy(event) }) {
                    Ok(_) => Some(action),
                    Err(_) => None,
                }
            },
        }
    }
}

/// The node exists and has a callback for the event.
pub open spec fn has_callback(t: Tree, id: NodeId, event: Seq<char>) -> bool {
    t.nodes.dom().contains(id) && t.nodes[id].callbacks.dom().contains(event)
}

/// Every document is finite: its nodes, and what each of them holds.
pub proof fn law_documents_are_finite(doc: Document)
    ensures
        finite_tree(doc@.tree),
{
    doc.nodes.lemma_finite();
}

} // verus!
