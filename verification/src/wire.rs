//! The plain form of a document that a serializer writes and reads.
use vstd::prelude::*;

use crate::ir::{edit_models, DocModel, Document, Edit, Tree};
use crate::node::{sorted_ids, Node, NodeId, NodeModel, NodeTable};

verus! {

/// A document as plain data: nodes in ascending order of their ids, root, next id and log.
#[derive(Debug, PartialEq)]
pub struct DocumentWire {
    pub nodes: Vec<(NodeId, Node)>,
    pub root: Option<NodeId>,
    pub next_id: u64,
    pub log: Vec<Edit>,
}

/// The ids and nodes of a wire form.
pub open spec fn entry_models(s: Seq<(NodeId, Node)>) -> Seq<(NodeId, NodeModel)> {
    s.map_values(|e: (NodeId, Node)| (e.0, e.1@))
}

/// The table that a list of entries fills; of two entries with one id the later one counts.
pub open spec fn table_of(s: Seq<(NodeId, NodeModel)>) -> Map<NodeId, NodeModel>
    decreases s.len(),
{
    if s.len() == 0 {
        Map::empty()
    } else {
        table_of(s.drop_last()).insert(s.last().0, s.last().1)
    }
}

/// A table as a list of entries in ascending order of their ids.
pub open spec fn entries_of(m: Map<NodeId, NodeModel>) -> Seq<(NodeId, NodeModel)> {
    let ids = sorted_ids(m.dom());
    Seq::new(ids.len(), |i: int| (ids[i], m[ids[i]]))
}

/// A copy of a log.
pub fn copy_log(log: &[Edit]) -> (r: Vec<Edit>)
    ensures
        edit_models(r@) == edit_models(log@),
{
    let mut out: Vec<Edit> = Vec::new();
    let mut i: usize = 0;
    while i < log.len()
        invariant
            i <= log@.len(),
            out@.len() == i,
            forall|k: int| 0 <= k < i ==> (#[trigger] out@[k])@ == log@[k]@,
        decreases log.len() - i,
    {
        out.push(log[i].clone());
        i += 1;
    }
    assert(edit_models(out@) =~= edit_models(log@));
    out
}

impl Document {
    /// The plain form of the document.
    pub fn to_wire(&self) -> (r: DocumentWire)
        ensures
            entry_models(r.nodes@) == entries_of(self@.tree.nodes),
            r.root == self@.tree.root,
            r.next_id == self@.next_id,
            edit_models(r.log@) == self@.log,
            self@.tree.nodes.dom().finite(),
    {
        let ids = self.ids();
        let mut nodes: Vec<(NodeId, Node)> = Vec::new();
        let mut i: usize = 0;
        while i < ids.len()
            invariant
                ids@ == sorted_ids(self@.tree.nodes.dom()),
                ids@.to_set() == self@.tree.nodes.dom(),
                i <= ids@.len(),
                nodes@.len() == i,
                forall|k: int|
                    0 <= k < i ==> (#[trigger] nodes@[k]).0 == ids@[k] && nodes@[k].1@
                        == self@.tree.nodes[ids@[k]],
            decreases ids.len() - i,
        {
            assert(ids@.to_set().contains(ids@[i as int]));
            let node = self.get(ids[i]).unwrap();
            nodes.push((ids[i], node.clone()));
            i += 1;
        }
        assert(entry_models(nodes@) =~= entries_of(self@.tree.nodes));
        DocumentWire {
            nodes,
            root: self.root(),
            next_id: self.next_id(),
            log: copy_log(self.audit_log()),
        }
    }

    /// The document that a plain form describes.
    pub fn from_wire(wire: DocumentWire) -> (r: Document)
        ensures
            r@ == (DocModel {
                tree: Tree { nodes: table_of(entry_models(wire.nodes@)), root: wire.root },
                next_id: wire.next_id,
                log: edit_models(wire.log@),
            }),
    {
        let mut table = NodeTable::new();
        let ghost all = entry_models(wire.nodes@);
        let mut i: usize = 0;
        assert(all.take(0) =~= Seq::<(NodeId, NodeModel)>::empty());
        while i < wire.nodes.len()
            invariant
                all == entry_models(wire.nodes@),
                i <= wire.nodes@.len(),
                table@ == table_of(all.take(i as int)),
            decreases wire.nodes.len() - i,
        {
            let e = &wire.nodes[i];
            assert(all.take(i + 1).drop_last() =~= all.take(i as int));
            assert(all.take(i + 1).last() == (e.0, e.1@));
            table.put(e.0, e.1.clone());
            i += 1;
        }
        assert(all.take(i as int) =~= all);
        Document::from_parts(table, wire.root, wire.next_id, wire.log)
    }
}

impl Clone for Document {
    fn clone(&self) -> (r: Self)
        ensures
            r@ == self@,
    {
        let r = Document::from_wire(self.to_wire());
        proof {
            law_entries_round_trip(self@.tree.nodes);
        }
        r
    }
}

impl Default for Document {
    fn default() -> (r: Self)
        ensures
            r@ == crate::ir::empty_doc(),
    {
        Document::new()
    }
}

proof fn lemma_table_of(s: Seq<(NodeId, NodeModel)>, id: NodeId)
    requires
        forall|i: int, j: int| 0 <= i < j < s.len() ==> (#[trigger] s[i]).0 != (#[trigger] s[j]).0,
    ensures
        table_of(s).dom().contains(id) <==> exists|i: int| 0 <= i < s.len() && (#[trigger] s[i]).0 == id,
        forall|i: int| 0 <= i < s.len() && (#[trigger] s[i]).0 == id ==> table_of(s)[id] == s[i].1,
    decreases s.len(),
{
    if s.len() > 0 {
        let d = s.drop_last();
        assert forall|i: int, j: int| 0 <= i < j < d.len() implies (#[trigger] d[i]).0 != (#[trigger] d[j]).0 by {
            assert(s[i].0 != s[j].0);
        }
        lemma_table_of(d, id);
        if table_of(s).dom().contains(id) {
            if id != s.last().0 {
                let i = choose|i: int| 0 <= i < d.len() && (#[trigger] d[i]).0 == id;
                assert(s[i].0 == id);
            } else {
                assert(s[s.len() - 1].0 == id);
            }
        }
        assert forall|i: int| 0 <= i < s.len() && (#[trigger] s[i]).0 == id implies table_of(s)[id] == s[i].1
            && table_of(s).dom().contains(id) by {
            if i < d.len() {
                assert(d[i].0 == id);
                assert(s[i].0 != s[s.len() - 1].0);
            }
        }
    }
}

/// Listing a table and filling a table from the list gives the table back.
pub proof fn law_entries_round_trip(m: Map<NodeId, NodeModel>)
    requires
        m.dom().finite(),
    ensures
        table_of(entries_of(m)) == m,
{
    crate::diff_law::lemma_sorted_ids_exists(m.dom());
    let ids = sorted_ids(m.dom());
    let s = entries_of(m);
    assert forall|i: int, j: int| 0 <= i < j < s.len() implies (#[trigger] s[i]).0 != (#[trigger] s[j]).0 by {
        assert(ids[i].0 < ids[j].0);
    }
    assert forall|id: NodeId|
        #![trigger table_of(s).dom().contains(id)]
        #![trigger m.dom().contains(id)]
        (table_of(s).dom().contains(id) <==> m.dom().contains(id)) && (m.dom().contains(id) ==> table_of(
            s,
        )[id] == m[id]) by {
        lemma_table_of(s, id);
        assert(ids.to_set().contains(id) == m.dom().contains(id));
        if m.dom().contains(id) {
            let i = choose|i: int| 0 <= i < ids.len() && ids[i] == id;
            assert(s[i].0 == id);
        }
    }
    assert(table_of(s) =~= m);
}

} // verus!
