//! What holds of every document that a source text stands for.
use vstd::prelude::*;

use crate::dsl::{document_of, lowered, lowered_all, prop_mutation, with_bindings, with_entries, with_handlers};
use crate::dsl_syntax::{elements_in, elements_in_all, CallbackModel, ElementModel, PropModel};
use crate::ir::{empty_doc, DocModel, MutationModel};
use crate::lowering::created;
use crate::lowering_law::{
    lemma_created_sprouts, lemma_empty_sprouting, lemma_hung_sprouts, lemma_set_sprouts, lemma_sprouting_orderly,
    orderly, rooted_in, sprouting,
};
use crate::node::NodeId;

verus! {

proof fn lemma_bindings(d: DocModel, id: NodeId, bs: Seq<(Seq<char>, Seq<char>)>, n: int)
    requires
        sprouting(d),
    ensures
        sprouting(with_bindings(d, id, bs, n)),
        rooted_in(d, with_bindings(d, id, bs, n)),
        with_bindings(d, id, bs, n).next_id == d.next_id,
    decreases n,
{
    if n > 0 {
        lemma_bindings(d, id, bs, n - 1);
        let m = MutationModel::SetBinding { id, key: bs[n - 1].0, binding: bs[n - 1].1 };
        lemma_set_sprouts(with_bindings(d, id, bs, n - 1), m);
    }
}

proof fn lemma_entries(d: DocModel, id: NodeId, ps: Seq<PropModel>, n: int)
    requires
        sprouting(d),
    ensures
        sprouting(with_entries(d, id, ps, n)),
        rooted_in(d, with_entries(d, id, ps, n)),
        with_entries(d, id, ps, n).next_id == d.next_id,
    decreases n,
{
    if n > 0 {
        lemma_entries(d, id, ps, n - 1);
        lemma_set_sprouts(with_entries(d, id, ps, n - 1), prop_mutation(id, ps[n - 1]));
    }
}

proof fn lemma_handlers(d: DocModel, id: NodeId, cs: Seq<CallbackModel>, n: int)
    requires
        sprouting(d),
    ensures
        sprouting(with_handlers(d, id, cs, n)),
        rooted_in(d, with_handlers(d, id, cs, n)),
        with_handlers(d, id, cs, n).next_id == d.next_id,
    decreases n,
{
    if n > 0 {
        lemma_handlers(d, id, cs, n - 1);
        let c = cs[n - 1];
        let m = MutationModel::SetCallback {
            id,
            event: c.event,
            action: crate::value::ActionModel { name: c.action, args: c.args },
        };
        lemma_set_sprouts(with_handlers(d, id, cs, n - 1), m);
    }
}

proof fn lemma_lowered(e: ElementModel, d: DocModel)
    requires
        sprouting(d),
        d.next_id + elements_in(e) <= u64::MAX,
    ensures
        sprouting(lowered(e, d)),
        rooted_in(d, lowered(e, d)),
        lowered(e, d).next_id == d.next_id + elements_in(e),
        lowered(e, d).tree.nodes.dom().contains(NodeId(d.next_id)),
        lowered(e, d).tree.nodes[NodeId(d.next_id)].parent is None,
    decreases e, 0int,
{
    let id = NodeId(d.next_id);
    let d0 = created(d, e.kind);
    lemma_created_sprouts(d, e.kind);
    let d1 = with_bindings(d0, id, e.bindings, e.bindings.len() as int);
    lemma_bindings(d0, id, e.bindings, e.bindings.len() as int);
    let d2 = with_entries(d1, id, e.props, e.props.len() as int);
    lemma_entries(d1, id, e.props, e.props.len() as int);
    let d3 = with_handlers(d2, id, e.callbacks, e.callbacks.len() as int);
    lemma_handlers(d2, id, e.callbacks, e.callbacks.len() as int);
    lemma_lowered_all(e.children, e.children.len() as int, id, d3);
}

proof fn lemma_lowered_all(s: Seq<ElementModel>, n: int, parent: NodeId, d: DocModel)
    requires
        0 <= n <= s.len(),
        sprouting(d),
        d.tree.nodes.dom().contains(parent),
        d.next_id + elements_in_all(s, n) <= u64::MAX,
    ensures
        sprouting(lowered_all(s, n, parent, d)),
        rooted_in(d, lowered_all(s, n, parent, d)),
        lowered_all(s, n, parent, d).next_id == d.next_id + elements_in_all(s, n),
    decreases s, n,
{
    if n > 0 {
        lemma_lowered_all(s, n - 1, parent, d);
        let before = lowered_all(s, n - 1, parent, d);
        lemma_lowered(s[n - 1], before);
        lemma_hung_sprouts(d, lowered(s[n - 1], before), parent, NodeId(before.next_id));
    }
}

/// The document of an element is orderly, has a node for every element, and the first of them is
/// its root.
pub proof fn law_document_of(e: ElementModel)
    requires
        elements_in(e) <= u64::MAX,
    ensures
        orderly(document_of(e)),
        document_of(e).tree.root == Some(NodeId(0)),
        document_of(e).tree.nodes.dom().contains(NodeId(0)),
        document_of(e).next_id == elements_in(e),
{
    lemma_empty_sprouting();
    lemma_lowered(e, empty_doc());
    lemma_set_sprouts(lowered(e, empty_doc()), MutationModel::SetRoot { id: NodeId(0) });
    lemma_sprouting_orderly(document_of(e));
}

} // verus!
