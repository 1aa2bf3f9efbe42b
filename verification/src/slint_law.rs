//! What holds of every imported Slint source.
use vstd::prelude::*;

use crate::float::Unit;
use crate::ir::{empty_doc, DocModel, MutationModel};
use crate::lowering::{created, sys};
use crate::node::NodeId;
use crate::slint_import::{
    assembled, document_of, fits, lowered, lowered_children, settles, with_props, SlintNode, SlintSource,
};

verus! {

proof fn lemma_deeper_is_same(e: SlintNode, comps: Map<Seq<char>, SlintNode>, n: nat, m: nat, d: DocModel, fl: Unit)
    requires
        settles(e, comps, n),
        n <= m,
    ensures
        lowered(e, comps, n, d, fl) == lowered(e, comps, m, d, fl),
    decreases n, 0nat,
{
    let id = NodeId(d.next_id);
    let used = comps.dom().contains(e.kind);
    let comp = comps[e.kind];
    let d1 = created(
        d,
        if used {
            "Stack"@
        } else {
            e.kind
        },
    );
    let d2 = if used {
        with_props(id, comp.props, 0, d1, fl)
    } else {
        d1
    };
    let d3 = with_props(id, e.props, 0, d2, fl);
    if used {
        lemma_deeper_children(comp.children, 0, id, comps, (n - 1) as nat, (m - 1) as nat, d3, fl);
    }
    let d4 = if used {
        lowered_children(comp.children, 0, id, comps, (n - 1) as nat, d3, fl)
    } else {
        d3
    };
    lemma_deeper_children(e.children, 0, id, comps, (n - 1) as nat, (m - 1) as nat, d4, fl);
}

proof fn lemma_deeper_children(
    s: Seq<SlintNode>,
    i: int,
    id: NodeId,
    comps: Map<Seq<char>, SlintNode>,
    n: nat,
    m: nat,
    d: DocModel,
    fl: Unit,
)
    requires
        forall|k: int| 0 <= k < s.len() ==> settles(#[trigger] s[k], comps, n),
        n <= m,
    ensures
        lowered_children(s, i, id, comps, n, d, fl) == lowered_children(s, i, id, comps, m, d, fl),
    decreases n, (if i < s.len() { s.len() - i + 1 } else { 1 }) as nat,
{
    if 0 <= i < s.len() {
        lemma_deeper_is_same(s[i], comps, n, m, d, fl);
        let d1 = sys(
            lowered(s[i], comps, n, d, fl),
            MutationModel::AppendChild { parent: id, child: NodeId(d.next_id) },
        );
        lemma_deeper_children(s, i + 1, id, comps, n, m, d1, fl);
    }
}

proof fn lemma_same_assembly(f: SlintSource, i: int, n: nat, m: nat, d: DocModel, fl: Unit)
    requires
        fits(f, n),
        n <= m,
    ensures
        assembled(f, i, n, d, fl) == assembled(f, i, m, d, fl),
    decreases f.elements.len() - i,
{
    if 0 <= i < f.elements.len() {
        lemma_deeper_is_same(f.elements[i], f.components, n, m, d, fl);
        let d1 = lowered(f.elements[i], f.components, n, d, fl);
        let d2 = if i == 0 {
            sys(d1, MutationModel::SetRoot { id: NodeId(d.next_id) })
        } else {
            d1
        };
        lemma_same_assembly(f, i + 1, n, m, d2, fl);
    }
}

/// Every depth that a source fits in gives the same document, the one that the source stands for.
pub proof fn law_depth_does_not_matter(f: SlintSource, n: nat, fl: Unit)
    requires
        fits(f, n),
    ensures
        document_of(f, fl) == assembled(f, 0, n, empty_doc(), fl),
{
    let c = choose|c: nat| fits(f, c);
    assert(fits(f, c));
    if n <= c {
        lemma_same_assembly(f, 0, n, c, empty_doc(), fl);
    } else {
        lemma_same_assembly(f, 0, c, n, empty_doc(), fl);
    }
}

} // verus!
