//! What the readers of source texts share when they turn what they read into a document.
use vstd::prelude::*;

use crate::ir::{applied, verdict, DocModel, Document, Mutation, MutationModel, Origin};
use crate::lowering_law::{lemma_created_sprouts, lemma_set_sprouts, rooted_in, sprouting};
use crate::node::NodeId;

verus! {

/// The document after one mutation by the system.
pub open spec fn sys(d: DocModel, m: MutationModel) -> DocModel {
    applied(d, Origin::System, m)
}

/// The document after one id was handed out.
pub open spec fn reserved(d: DocModel) -> DocModel {
    DocModel { next_id: (d.next_id + 1) as u64, ..d }
}

/// The document after a node of the given kind was created under the next id.
pub open spec fn created(d: DocModel, kind: Seq<char>) -> DocModel {
    sys(reserved(d), MutationModel::CreateNode { id: NodeId(d.next_id), kind })
}

/// The ids in use lie below the next one.
pub open spec fn tidy(d: DocModel) -> bool {
    forall|id: NodeId| #[trigger] d.tree.nodes.dom().contains(id) ==> id.0 < d.next_id
}

/// A later document: it holds the nodes of the earlier one, and its next id is no smaller.
pub open spec fn grown(a: DocModel, b: DocModel) -> bool {
    &&& a.next_id <= b.next_id
    &&& forall|id: NodeId| #[trigger] a.tree.nodes.dom().contains(id) ==> b.tree.nodes.dom().contains(id)
}

/// A mutation other than a removal keeps the ids in order and the nodes there.
pub proof fn lemma_sys_grows(d: DocModel, m: MutationModel)
    requires
        tidy(d),
        !(m is RemoveNode),
        m matches MutationModel::CreateNode { id, .. } ==> id.0 < d.next_id,
        m matches MutationModel::Reconstruct { id, .. } ==> id.0 < d.next_id,
    ensures
        tidy(sys(d, m)),
        grown(d, sys(d, m)),
        sys(d, m).next_id == d.next_id,
{
}

/// Creating a node under the next id always succeeds.
pub proof fn lemma_created(d: DocModel, kind: Seq<char>)
    requires
        tidy(d),
        d.next_id < u64::MAX,
    ensures
        verdict(reserved(d), MutationModel::CreateNode { id: NodeId(d.next_id), kind }) is Ok,
        tidy(created(d, kind)),
        grown(d, created(d, kind)),
        created(d, kind).next_id == d.next_id + 1,
        created(d, kind).tree.nodes.dom().contains(NodeId(d.next_id)),
{
}

/// Creates a node of the given kind under the next id.
pub fn create(doc: &mut Document, kind: String) -> (r: NodeId)
    requires
        tidy(old(doc)@),
        old(doc)@.next_id < u64::MAX,
    ensures
        r == NodeId(old(doc)@.next_id),
        final(doc)@ == created(old(doc)@, kind@),
        tidy(final(doc)@),
        grown(old(doc)@, final(doc)@),
        final(doc)@.next_id == old(doc)@.next_id + 1,
        final(doc)@.tree.nodes.dom().contains(r),
        sprouting(old(doc)@) ==> sprouting(final(doc)@) && rooted_in(old(doc)@, final(doc)@)
            && final(doc)@.tree.nodes[r].parent is None,
{
    proof {
        lemma_created(doc@, kind@);
        if sprouting(doc@) {
            lemma_created_sprouts(doc@, kind@);
        }
    }
    let id = doc.fresh_id();
    let _done = doc.apply_from(Origin::System, Mutation::CreateNode { id, kind });
    id
}

/// Applies a mutation by the system, whether it is accepted or not.
pub fn apply_system(doc: &mut Document, m: Mutation)
    requires
        tidy(old(doc)@),
        !(m@ is RemoveNode || m@ is CreateNode || m@ is Reconstruct),
    ensures
        final(doc)@ == sys(old(doc)@, m@),
        tidy(final(doc)@),
        grown(old(doc)@, final(doc)@),
        final(doc)@.next_id == old(doc)@.next_id,
        sprouting(old(doc)@) && (m@ is SetProp || m@ is SetBinding || m@ is SetCallback || m@ is SetRoot) ==> sprouting(
            final(doc)@,
        ) && rooted_in(old(doc)@, final(doc)@),
{
    proof {
        lemma_sys_grows(doc@, m@);
        if sprouting(doc@) && (m@ is SetProp || m@ is SetBinding || m@ is SetCallback || m@ is SetRoot) {
            lemma_set_sprouts(doc@, m@);
        }
    }
    let _done = doc.apply_from(Origin::System, m);
}

} // verus!
