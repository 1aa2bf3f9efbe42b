//! What each edit writes, and what it leaves alone.
use vstd::prelude::*;

use crate::coherence::{above, ancestor};
use crate::coherence_law::lemma_filtered_out;
use crate::ir::{step, IrError, MutationModel, Tree};
use crate::node::{lacking, NodeId};
use crate::value::{ActionModel, ValueModel};

verus! {

/// The property of a node under a name, if it has one.
pub open spec fn prop(t: Tree, x: NodeId, k: Seq<char>) -> Option<ValueModel> {
    if t.nodes.dom().contains(x) && t.nodes[x].props.dom().contains(k) {
        Some(t.nodes[x].props[k])
    } else {
        None
    }
}

/// The callback of a node for an event, if it has one.
pub open spec fn answer_to(t: Tree, x: NodeId, k: Seq<char>) -> Option<ActionModel> {
    if t.nodes.dom().contains(x) && t.nodes[x].callbacks.dom().contains(k) {
        Some(t.nodes[x].callbacks[k])
    } else {
        None
    }
}

/// The key of the state that a property of a node is bound to, if it is.
pub open spec fn bound_to(t: Tree, x: NodeId, k: Seq<char>) -> Option<Seq<char>> {
    if t.nodes.dom().contains(x) && t.nodes[x].bindings.dom().contains(k) {
        Some(t.nodes[x].bindings[k])
    } else {
        None
    }
}

/// What a node that comes back has under a name.
pub open spec fn kept<V>(m: Map<Seq<char>, V>, k: Seq<char>) -> Option<V> {
    if m.dom().contains(k) {
        Some(m[k])
    } else {
        None
    }
}

/// A property is what was last set: setting writes the one that it names, removing clears it, a new
/// node has none, one that comes back has its own, and no other edit touches any.
pub proof fn law_property_is_what_was_set(t: Tree, m: MutationModel, u: Tree, x: NodeId, k: Seq<char>)
    requires
        step(t, m) == Ok::<Tree, IrError>(u),
    ensures
        prop(u, x, k) == match m {
            MutationModel::SetProp { id, key, value } => if x == id && k == key {
                Some(value)
            } else {
                prop(t, x, k)
            },
            MutationModel::RemoveProp { id, key } => if x == id && k == key {
                None
            } else {
                prop(t, x, k)
            },
            MutationModel::RemoveNode { id } => if x == id {
                None
            } else {
                prop(t, x, k)
            },
            MutationModel::Reconstruct { id, node, .. } => if x == id {
                kept(node.props, k)
            } else {
                prop(t, x, k)
            },
            _ => prop(t, x, k),
        },
{
}

/// A callback is what was last set for its event.
pub proof fn law_callback_is_what_was_set(t: Tree, m: MutationModel, u: Tree, x: NodeId, k: Seq<char>)
    requires
        step(t, m) == Ok::<Tree, IrError>(u),
    ensures
        answer_to(u, x, k) == match m {
            MutationModel::SetCallback { id, event, action } => if x == id && k == event {
                Some(action)
            } else {
                answer_to(t, x, k)
            },
            MutationModel::RemoveCallback { id, event } => if x == id && k == event {
                None
            } else {
                answer_to(t, x, k)
            },
            MutationModel::RemoveNode { id } => if x == id {
                None
            } else {
                answer_to(t, x, k)
            },
            MutationModel::Reconstruct { id, node, .. } => if x == id {
                kept(node.callbacks, k)
            } else {
                answer_to(t, x, k)
            },
            _ => answer_to(t, x, k),
        },
{
}

/// A binding is what was last set for its property.
pub proof fn law_binding_is_what_was_set(t: Tree, m: MutationModel, u: Tree, x: NodeId, k: Seq<char>)
    requires
        step(t, m) == Ok::<Tree, IrError>(u),
    ensures
        bound_to(u, x, k) == match m {
            MutationModel::SetBinding { id, key, binding } => if x == id && k == key {
                Some(binding)
            } else {
                bound_to(t, x, k)
            },
            MutationModel::RemoveBinding { id, key } => if x == id && k == key {
                None
            } else {
                bound_to(t, x, k)
            },
            MutationModel::RemoveNode { id } => if x == id {
                None
            } else {
                bound_to(t, x, k)
            },
            MutationModel::Reconstruct { id, node, .. } => if x == id {
                kept(node.bindings, k)
            } else {
                bound_to(t, x, k)
            },
            _ => bound_to(t, x, k),
        },
{
}

/// Nodes come by being created or brought back and go by being removed; a node keeps its kind; and
/// the root is the one that was last made so, until it is removed.
pub proof fn law_nodes_come_and_go(t: Tree, m: MutationModel, u: Tree, x: NodeId)
    requires
        step(t, m) == Ok::<Tree, IrError>(u),
        m is RemoveChild ==> t.nodes.dom().contains(m->RemoveChild_child),
    ensures
        u.nodes.dom().contains(x) <==> match m {
            MutationModel::CreateNode { id, .. } => x == id || t.nodes.dom().contains(x),
            MutationModel::Reconstruct { id, .. } => x == id || t.nodes.dom().contains(x),
            MutationModel::RemoveNode { id } => x != id && t.nodes.dom().contains(x),
            _ => t.nodes.dom().contains(x),
        },
        t.nodes.dom().contains(x) && u.nodes.dom().contains(x) ==> u.nodes[x].kind == t.nodes[x].kind,
        m matches MutationModel::CreateNode { id, kind } ==> u.nodes[id].kind == kind && u.nodes[id].children.len() == 0
            && u.nodes[id].parent is None && !t.nodes.dom().contains(id),
        m matches MutationModel::Reconstruct { id, node, .. } ==> u.nodes[id].kind == node.kind,
        u.root == match m {
            MutationModel::SetRoot { id } => Some(id),
            MutationModel::Reconstruct { id, was_root, .. } => if was_root {
                Some(id)
            } else {
                t.root
            },
            MutationModel::RemoveNode { id } => if t.root == Some(id) {
                None
            } else {
                t.root
            },
            _ => t.root,
        },
{
}

/// A child is put last under its parent, once, and leaves the parent that it had; every other node
/// keeps its children and its parent.
pub proof fn law_child_is_put_last(t: Tree, parent: NodeId, child: NodeId, u: Tree, x: NodeId)
    requires
        step(t, MutationModel::AppendChild { parent, child }) == Ok::<Tree, IrError>(u),
        t.nodes.dom().contains(x),
    ensures
        u.nodes[child].parent == Some(parent),
        x != child ==> u.nodes[x].parent == t.nodes[x].parent,
        !t.nodes[parent].children.contains(child) ==> u.nodes[parent].children == t.nodes[parent].children.push(child),
        t.nodes[parent].children.contains(child) ==> u.nodes[parent].children == t.nodes[parent].children,
        x != parent && t.nodes[child].parent == Some(x) ==> !u.nodes[x].children.contains(child),
        x != parent && t.nodes[child].parent == Some(x) ==> (forall|y: NodeId|
            y != child ==> (#[trigger] u.nodes[x].children.contains(y) <==> t.nodes[x].children.contains(y))),
        x != parent && t.nodes[child].parent != Some(x) ==> u.nodes[x].children == t.nodes[x].children,
        parent != child,
{
    assert(parent != child) by {
        if parent == child {
            assert(ancestor(t, parent, 0) == Some(child));
            assert(above(t, child, parent));
        }
    }
    let s = t.nodes[x].children;
    assert forall|y: NodeId| lacking(s, child).contains(y) <==> s.contains(y) && y != child by {
        lemma_filtered_out(s, child, y);
    }
}

/// An edit is refused exactly where a node that it needs is missing, where the node that it makes is
/// there already, and where it would hang a node under itself or take a child from a node that has
/// no such child.
pub proof fn law_edit_is_refused_for_a_reason(t: Tree, m: MutationModel)
    ensures
        step(t, m) is Err <==> match m {
            MutationModel::CreateNode { id, .. } => t.nodes.dom().contains(id),
            MutationModel::Reconstruct { id, .. } => t.nodes.dom().contains(id),
            MutationModel::AppendChild { parent, child } => !t.nodes.dom().contains(parent) || !t.nodes.dom().contains(
                child,
            ) || above(t, child, parent),
            MutationModel::RemoveChild { parent, child } => !t.nodes.dom().contains(parent)
                || !t.nodes[parent].children.contains(child),
            MutationModel::SetRoot { id } => !t.nodes.dom().contains(id),
            MutationModel::SetProp { id, .. } => !t.nodes.dom().contains(id),
            MutationModel::RemoveProp { id, .. } => !t.nodes.dom().contains(id),
            MutationModel::RemoveNode { id } => !t.nodes.dom().contains(id),
            MutationModel::SetCallback { id, .. } => !t.nodes.dom().contains(id),
            MutationModel::SetBinding { id, .. } => !t.nodes.dom().contains(id),
            MutationModel::Invoke { id, .. } => !t.nodes.dom().contains(id),
            MutationModel::RemoveCallback { id, .. } => !t.nodes.dom().contains(id),
            MutationModel::RemoveBinding { id, .. } => !t.nodes.dom().contains(id),
        },
        step(t, m) matches Err(IrError::NoSuchNode(id)) ==> !t.nodes.dom().contains(id),
        step(t, m) matches Err(IrError::DuplicateNode(id)) ==> t.nodes.dom().contains(id),
        step(t, m) matches Err(IrError::NotAChild { parent, child }) ==> {
            ||| m == (MutationModel::AppendChild { parent, child })
            ||| m == (MutationModel::RemoveChild { parent, child })
        },
{
}

} // verus!
