//! What holds of every document, whatever is done to it.
use vstd::prelude::*;

use crate::ir::{applied, has_callback, step, DocModel, EditModel, MutationModel, Origin};
use crate::lowering::{reserved, tidy};
use crate::node::NodeId;

verus! {

/// The log only grows: an accepted edit is put behind all the others with its origin, a refused
/// one changes nothing at all.
pub proof fn law_log_only_grows(d: DocModel, origin: Origin, m: MutationModel)
    ensures
        step(d.tree, m) is Ok ==> applied(d, origin, m).log == d.log.push(EditModel { origin, mutation: m }),
        step(d.tree, m) is Err ==> applied(d, origin, m) == d,
        applied(d, origin, m).next_id == d.next_id,
{
}

/// Who edits makes no difference to the tree, only to what the log says.
pub proof fn law_origin_is_only_logged(d: DocModel, a: Origin, b: Origin, m: MutationModel)
    ensures
        applied(d, a, m).tree == applied(d, b, m).tree,
        applied(d, a, m).log.len() == applied(d, b, m).log.len(),
{
}

/// Firing a callback leaves the tree as it is and is logged.
pub proof fn law_invoke_keeps_tree(d: DocModel, id: NodeId, event: Seq<char>, origin: Origin)
    requires
        has_callback(d.tree, id, event),
    ensures
        applied(d, origin, MutationModel::Invoke { id, event }).tree == d.tree,
        applied(d, origin, MutationModel::Invoke { id, event }).log == d.log.push(
            EditModel { origin, mutation: MutationModel::Invoke { id, event } },
        ),
{
}

/// An id that is handed out is new: no node has it, and the next one differs from it.
pub proof fn law_fresh_ids_are_new(d: DocModel)
    requires
        tidy(d),
        d.next_id < u64::MAX,
    ensures
        !d.tree.nodes.dom().contains(NodeId(d.next_id)),
        reserved(d).next_id != d.next_id,
        tidy(reserved(d)),
{
    if d.tree.nodes.dom().contains(NodeId(d.next_id)) {
        assert(NodeId(d.next_id).0 < d.next_id);
    }
}

/// A child that is detached is still there, without a parent.
pub proof fn law_detached_child_stays(d: DocModel, origin: Origin, parent: NodeId, child: NodeId)
    requires
        d.tree.nodes.dom().contains(parent),
        d.tree.nodes.dom().contains(child),
        d.tree.nodes[parent].children.contains(child),
    ensures
        ({
            let r = applied(d, origin, MutationModel::RemoveChild { parent, child });
            &&& r.tree.nodes.dom().contains(child)
            &&& r.tree.nodes[child].parent is None
        }),
{
}

} // verus!
