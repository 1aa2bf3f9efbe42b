//! Nodes of the document tree and the table that holds them.
use std::collections::HashMap;
use vstd::prelude::*;

use crate::text_map::{lemma_text_map_finite, TextMap};
use crate::value::{Action, ActionModel, Binding, Value, ValueModel};

verus! {

broadcast use vstd::std_specs::hash::group_hash_axioms;

/// The identity of a node.
#[derive(Debug, Clone, Copy, PartialEq, Eq, Hash, PartialOrd, Ord, Structural)]
pub struct NodeId(pub u64);

/// One element of the interface.
#[derive(Debug, PartialEq)]
pub struct Node {
    pub kind: String,
    pub props: TextMap<Value>,
    pub children: Vec<NodeId>,
    pub parent: Option<NodeId>,
    pub callbacks: TextMap<Action>,
    pub bindings: TextMap<Binding>,
}

/// A [`Node`] as mathematics.
#[verifier::ext_equal]
pub struct NodeModel {
    pub kind: Seq<char>,
    pub props: Map<Seq<char>, ValueModel>,
    pub children: Seq<NodeId>,
    pub parent: Option<NodeId>,
    pub callbacks: Map<Seq<char>, ActionModel>,
    pub bindings: Map<Seq<char>, Seq<char>>,
}

/// The properties of a node as a map of value models.
pub open spec fn prop_models(m: Map<Seq<char>, Value>) -> Map<Seq<char>, ValueModel> {
    m.map_values(|v: Value| v@)
}

/// The callbacks of a node as a map of action models.
pub open spec fn action_models(m: Map<Seq<char>, Action>) -> Map<Seq<char>, ActionModel> {
    m.map_values(|a: Action| a@)
}

/// The bindings of a node as a map of expressions.
pub open spec fn binding_models(m: Map<Seq<char>, Binding>) -> Map<Seq<char>, Seq<char>> {
    m.map_values(|b: Binding| b@)
}

impl View for Node {
    type V = NodeModel;

    open spec fn view(&self) -> NodeModel {
        NodeModel {
            kind: self.kind@,
            props: prop_models(self.props@),
            children: self.children@,
            parent: self.parent,
            callbacks: action_models(self.callbacks@),
            bindings: binding_models(self.bindings@),
        }
    }
}

/// A node of the given kind with nothing in it.
pub open spec fn bare_node(kind: Seq<char>) -> NodeModel {
    NodeModel {
        kind,
        props: Map::empty(),
        children: Seq::empty(),
        parent: None,
        callbacks: Map::empty(),
        bindings: Map::empty(),
    }
}

/// A copy of a list of node ids.
pub fn copy_ids(v: &Vec<NodeId>) -> (r: Vec<NodeId>)
    ensures
        r@ == v@,
{
    let mut out: Vec<NodeId> = Vec::new();
    let mut i: usize = 0;
    while i < v.len()
        invariant
            i <= v@.len(),
            out@ == v@.take(i as int),
        decreases v.len() - i,
    {
        out.push(v[i]);
        i += 1;
        assert(out@ =~= v@.take(i as int));
    }
    assert(v@.take(i as int) =~= v@);
    out
}

/// The position of `id` in a list, if it is there.
pub fn find_id(v: &Vec<NodeId>, id: NodeId) -> (r: Option<usize>)
    ensures
        r is Some <==> v@.contains(id),
        r matches Some(i) ==> i < v@.len() && v@[i as int] == id && i == v@.index_of_first(id)->0
            && forall|k: int| 0 <= k < i ==> v@[k] != id,
{
    broadcast use vstd::seq_lib::group_seq_properties;

    let mut i: usize = 0;
    while i < v.len()
        invariant
            i <= v@.len(),
            forall|k: int| 0 <= k < i ==> v@[k] != id,
        decreases v.len() - i,
    {
        if v[i] == id {
            proof {
                v@.index_of_first_ensures(id);
            }
            return Some(i);
        }
        i += 1;
    }
    None
}

/// `true` exactly when `id` is in the list.
pub fn has_id(v: &Vec<NodeId>, id: NodeId) -> (r: bool)
    ensures
        r == v@.contains(id),
{
    find_id(v, id).is_some()
}

/// The list without any occurrence of `id`.
pub fn without_id(v: &Vec<NodeId>, id: NodeId) -> (r: Vec<NodeId>)
    ensures
        r@ == lacking(v@, id),
{
    let mut out: Vec<NodeId> = Vec::new();
    let mut i: usize = 0;
    while i < v.len()
        invariant
            i <= v@.len(),
            out@ == lacking(v@.take(i as int), id),
        decreases v.len() - i,
    {
        assert(v@.take(i + 1).drop_last() =~= v@.take(i as int));
        reveal(Seq::filter);
        if v[i] != id {
            out.push(v[i]);
        }
        i += 1;
    }
    assert(v@.take(i as int) =~= v@);
    out
}

impl Node {
    /// A node of the given kind with nothing in it.
    pub fn new(kind: String) -> (r: Node)
        ensures
            r@ == bare_node(kind@),
    {
        let r = Node {
            kind,
            props: TextMap::new(),
            children: Vec::new(),
            parent: None,
            callbacks: TextMap::new(),
            bindings: TextMap::new(),
        };
        assert(r@ =~= bare_node(kind@));
        r
    }
}

impl Default for Node {
    fn default() -> (r: Node)
        ensures
            r@ == bare_node(Seq::empty()),
    {
        Node::new(String::new())
    }
}

impl Clone for Node {
    fn clone(&self) -> (r: Self)
        ensures
            r@ == self@,
    {
        let r = Node {
            kind: self.kind.clone(),
            props: self.props.clone(),
            children: copy_ids(&self.children),
            parent: self.parent,
            callbacks: self.callbacks.clone(),
            bindings: self.bindings.clone(),
        };
        assert(r@ =~= self@);
        r
    }
}

/// Strictly increasing ids.
pub open spec fn ascending(s: Seq<NodeId>) -> bool {
    forall|i: int, j: int| 0 <= i < j < s.len() ==> (#[trigger] s[i]).0 < (#[trigger] s[j]).0
}

/// The members of a finite set of ids in ascending order.
pub open spec fn sorted_ids(ids: Set<NodeId>) -> Seq<NodeId> {
    choose|s: Seq<NodeId>| ascending(s) && #[trigger] s.to_set() == ids
}

/// Ascending sequences with the same members are equal.
pub proof fn lemma_ascending_unique(a: Seq<NodeId>, b: Seq<NodeId>)
    requires
        ascending(a),
        ascending(b),
        a.to_set() == b.to_set(),
    ensures
        a == b,
    decreases a.len(),
{
    if a.len() == 0 {
        if b.len() > 0 {
            assert(b.to_set().contains(b[0]));
            assert(a.to_set().contains(b[0]));
        }
        assert(a =~= b);
    } else {
        assert(a.to_set().contains(a.last()));
        assert(b.to_set().contains(a.last()));
        let j = choose|j: int| 0 <= j < b.len() && b[j] == a.last();
        assert(b.to_set().contains(b.last()));
        assert(a.to_set().contains(b.last()));
        let i = choose|i: int| 0 <= i < a.len() && a[i] == b.last();
        assert(a.last() == b.last());
        let a1 = a.drop_last();
        let b1 = b.drop_last();
        assert forall|x: NodeId| a1.to_set().contains(x) <==> b1.to_set().contains(x) by {
            if a1.to_set().contains(x) {
                let k = choose|k: int| 0 <= k < a1.len() && a1[k] == x;
                assert(a[k] == x);
                assert(a.to_set().contains(x));
                assert(b.to_set().contains(x));
                let m = choose|m: int| 0 <= m < b.len() && b[m] == x;
                assert(b1[m] == x);
            }
            if b1.to_set().contains(x) {
                let k = choose|k: int| 0 <= k < b1.len() && b1[k] == x;
                assert(b[k] == x);
                assert(b.to_set().contains(x));
                assert(a.to_set().contains(x));
                let m = choose|m: int| 0 <= m < a.len() && a[m] == x;
                assert(a1[m] == x);
            }
        }
        assert(a1.to_set() =~= b1.to_set());
        lemma_ascending_unique(a1, b1);
        assert(a =~= a1.push(a.last()));
        assert(b =~= b1.push(b.last()));
    }
}

/// An ascending sequence is its own members in order.
pub proof fn lemma_sorted_ids(s: Seq<NodeId>)
    requires
        ascending(s),
    ensures
        sorted_ids(s.to_set()) == s,
{
    let t = sorted_ids(s.to_set());
    assert(ascending(t) && t.to_set() == s.to_set());
    lemma_ascending_unique(t, s);
}

/// Puts `id` into an ascending list that does not hold it.
fn insert_ascending(v: &mut Vec<NodeId>, id: NodeId)
    requires
        ascending(old(v)@),
        !old(v)@.contains(id),
    ensures
        ascending(final(v)@),
        final(v)@.to_set() == old(v)@.to_set().insert(id),
{
    let mut i: usize = 0;
    while i < v.len() && v[i].0 < id.0
        invariant
            i <= v@.len(),
            v@ == old(v)@,
            forall|k: int| 0 <= k < i ==> (#[trigger] v@[k]).0 < id.0,
        decreases v.len() - i,
    {
        i += 1;
    }
    let ghost before = v@;
    v.insert(i, id);
    proof {
        assert(v@ =~= before.insert(i as int, id));
        assert forall|a: int, b: int| 0 <= a < b < v@.len() implies (#[trigger] v@[a]).0 < (#[trigger] v@[b]).0 by {
            if i < before.len() {
                assert(before[i as int] != id);
                assert(before[i as int].0 > id.0);
            }
            let a1 = if a < i { a } else { a - 1 };
            let b1 = if b < i { b } else { b - 1 };
            if a == i {
                if b1 > i {
                    assert(before[i as int].0 < before[b1].0);
                }
            } else if b != i {
                assert(before[a1].0 < before[b1].0);
            }
        }
        assert forall|x: NodeId| v@.to_set().contains(x) <==> before.to_set().insert(id).contains(x) by {
            if v@.contains(x) {
                let k = choose|k: int| 0 <= k < v@.len() && v@[k] == x;
                if k != i {
                    let k1 = if k < i { k } else { k - 1 };
                    assert(before[k1] == x);
                }
            }
            if before.contains(x) {
                let k = choose|k: int| 0 <= k < before.len() && before[k] == x;
                let k1 = if k < i { k } else { k + 1 };
                assert(v@[k1] == x);
            }
            assert(v@[i as int] == id);
        }
        assert(v@.to_set() =~= before.to_set().insert(id));
    }
}

/// The nodes of a document by id.
#[derive(Debug, PartialEq)]
pub struct NodeTable {
    map: HashMap<u64, Node>,
}

impl View for NodeTable {
    type V = Map<NodeId, NodeModel>;

    closed spec fn view(&self) -> Map<NodeId, NodeModel> {
        Map::new(|id: NodeId| self.map@.contains_key(id.0), |id: NodeId| self.map@[id.0]@)
    }
}

/// The maps of the node are finite.
pub open spec fn finite_node(n: NodeModel) -> bool {
    n.props.dom().finite() && n.callbacks.dom().finite() && n.bindings.dom().finite()
}

proof fn lemma_node_finite(n: Node)
    ensures
        finite_node(n@),
{
    lemma_text_map_finite(n.props);
    lemma_text_map_finite(n.callbacks);
    lemma_text_map_finite(n.bindings);
    assert(n@.props.dom() =~= n.props@.dom());
    assert(n@.callbacks.dom() =~= n.callbacks@.dom());
    assert(n@.bindings.dom() =~= n.bindings@.dom());
}

/// A list of ids without one of them.
pub open spec fn lacking(s: Seq<NodeId>, id: NodeId) -> Seq<NodeId> {
    s.filter(|c: NodeId| c != id)
}

/// The ids of the nodes whose parent is `id`.
pub open spec fn held(nodes: Map<NodeId, NodeModel>, id: NodeId) -> Set<NodeId> {
    Set::new(|x: NodeId| nodes.dom().contains(x) && nodes[x].parent == Some(id))
}

/// The nodes after those with the given ids got another parent.
pub open spec fn given_parent(
    nodes: Map<NodeId, NodeModel>,
    ids: Set<NodeId>,
    parent: Option<NodeId>,
) -> Map<NodeId, NodeModel> {
    Map::new(
        |x: NodeId| nodes.dom().contains(x),
        |x: NodeId|
            if ids.contains(x) {
                NodeModel { parent, ..nodes[x] }
            } else {
                nodes[x]
            },
    )
}

proof fn lemma_pushed_holds(s: Seq<NodeId>, x: NodeId, y: NodeId)
    ensures
        s.push(x).contains(y) <==> s.contains(y) || y == x,
{
    if s.contains(y) {
        let k = choose|k: int| 0 <= k < s.len() && s[k] == y;
        assert(s.push(x)[k] == y);
    }
    assert(s.push(x)[s.len() as int] == x);
}

impl NodeTable {
    /// A table with no nodes.
    pub fn new() -> (r: NodeTable)
        ensures
            r@ == Map::<NodeId, NodeModel>::empty(),
    {
        let r = NodeTable { map: HashMap::new() };
        assert(r@ =~= Map::<NodeId, NodeModel>::empty());
        r
    }

    /// `true` exactly when the table holds `id`.
    pub fn contains(&self, id: NodeId) -> (r: bool)
        ensures
            r == self@.dom().contains(id),
    {
        self.map.contains_key(&id.0)
    }

    /// The node under `id`, if there is one.
    pub fn get(&self, id: NodeId) -> (r: Option<&Node>)
        ensures
            r is Some <==> self@.dom().contains(id),
            r matches Some(n) ==> n@ == self@[id],
    {
        self.map.get(&id.0)
    }

    /// Takes the node under `id` out of the table.
    pub fn take(&mut self, id: NodeId) -> (r: Option<Node>)
        ensures
            r is Some <==> old(self)@.dom().contains(id),
            r matches Some(n) ==> n@ == old(self)@[id],
            final(self)@ == old(self)@.remove(id),
    {
        let r = self.map.remove(&id.0);
        assert(self@ =~= old(self)@.remove(id));
        r
    }

    /// Puts a node under `id`.
    pub fn put(&mut self, id: NodeId, node: Node)
        ensures
            final(self)@ == old(self)@.insert(id, node@),
    {
        let _was = self.map.insert(id.0, node);
        assert(self@ =~= old(self)@.insert(id, node@));
    }

    /// The ids of the nodes whose parent is `id`.
    pub fn held_by(&self, id: NodeId) -> (r: Vec<NodeId>)
        ensures
            r@.to_set() == held(self@, id),
    {
        let ids = self.ids();
        let mut out: Vec<NodeId> = Vec::new();
        let mut i: usize = 0;
        while i < ids.len()
            invariant
                i <= ids@.len(),
                ids@.to_set() == self@.dom(),
                forall|x: NodeId| #[trigger]
                    out@.contains(x) <==> held(self@, id).contains(x) && ids@.take(i as int).contains(x),
            decreases ids.len() - i,
        {
            let x = ids[i];
            let ghost was = out@;
            assert(ids@.to_set().contains(ids@[i as int]));
            let under = match self.get(x) {
                Some(n) => match n.parent {
                    Some(p) => p == id,
                    None => false,
                },
                None => false,
            };
            if under {
                out.push(x);
            }
            proof {
                assert(ids@.take(i + 1) =~= ids@.take(i as int).push(x));
                assert forall|y: NodeId| #[trigger]
                    out@.contains(y) <==> held(self@, id).contains(y) && ids@.take(i + 1).contains(y) by {
                    lemma_pushed_holds(ids@.take(i as int), x, y);
                    lemma_pushed_holds(was, x, y);
                }
            }
            i += 1;
        }
        proof {
            assert(ids@.take(i as int) =~= ids@);
            assert forall|x: NodeId| out@.to_set().contains(x) <==> held(self@, id).contains(x) by {
                if held(self@, id).contains(x) {
                    assert(ids@.to_set().contains(x));
                }
                assert(out@.contains(x) <==> out@.to_set().contains(x));
            }
            assert(out@.to_set() =~= held(self@, id));
        }
        out
    }

    /// Gives the nodes with the given ids another parent.
    pub fn give_parent(&mut self, ids: &Vec<NodeId>, parent: Option<NodeId>)
        ensures
            final(self)@ == given_parent(old(self)@, ids@.to_set(), parent),
    {
        let ghost a = self@;
        let mut i: usize = 0;
        assert(ids@.take(0).to_set() =~= Set::empty());
        assert(self@ =~= given_parent(a, ids@.take(0).to_set(), parent));
        while i < ids.len()
            invariant
                i <= ids@.len(),
                self@ == given_parent(a, ids@.take(i as int).to_set(), parent),
            decreases ids.len() - i,
        {
            let x = ids[i];
            match self.take(x) {
                Some(mut n) => {
                    n.parent = parent;
                    self.put(x, n);
                },
                None => {},
            }
            proof {
                assert(ids@.take(i + 1) =~= ids@.take(i as int).push(x));
                assert forall|y: NodeId| ids@.take(i + 1).to_set().contains(y) <==> ids@.take(i as int).to_set().contains(y)
                    || y == x by {
                    lemma_pushed_holds(ids@.take(i as int), x, y);
                }
                assert(self@ =~= given_parent(a, ids@.take(i + 1).to_set(), parent));
            }
            i += 1;
        }
        assert(ids@.take(i as int) =~= ids@);
    }

    /// A table is finite, and so is what each of its nodes holds.
    pub proof fn lemma_finite(self)
        ensures
            self@.dom().finite(),
            forall|id: NodeId| #[trigger] self@.dom().contains(id) ==> finite_node(self@[id]),
    {
        self.lemma_size();
        assert forall|id: NodeId| #[trigger] self@.dom().contains(id) implies finite_node(self@[id]) by {
            lemma_node_finite(self.map@[id.0]);
        }
    }

    proof fn lemma_size(self)
        ensures
            self@.dom().finite(),
            self@.dom().len() == self.map@.dom().len(),
    {
        let keys = self.map@.dom();
        let f = |k: u64| NodeId(k);
        keys.lemma_map_finite(f);
        assert(keys.map(f) =~= self@.dom()) by {
            assert forall|id: NodeId| self@.dom().contains(id) implies keys.map(f).contains(id) by {
                assert(keys.contains(id.0));
                assert(f(id.0) == id);
            }
        }
        vstd::set_lib::lemma_map_size(keys, self@.dom(), f);
    }

    /// How many nodes the table holds.
    pub fn len(&self) -> (r: usize)
        ensures
            r == self@.len(),
            self@.dom().finite(),
    {
        proof {
            self.lemma_size();
        }
        self.map.len()
    }

    /// The ids in ascending order.
    pub fn ids(&self) -> (r: Vec<NodeId>)
        ensures
            r@ == sorted_ids(self@.dom()),
            ascending(r@),
            r@.to_set() == self@.dom(),
            self@.dom().finite(),
    {
        let mut out: Vec<NodeId> = Vec::new();
        let ghost ks: Seq<&u64> = vstd::std_specs::iter::IteratorSpec::remaining(
            &vstd::std_specs::hash::spec_keys_iter(&self.map),
        );
        for k in it: self.map.keys()
            invariant
                it.seq() == ks,
                ks.unref().to_set() == self.map@.dom(),
                ks.no_duplicates(),
                ascending(out@),
                forall|id: NodeId| #[trigger] out@.contains(id) <==> exists|j: int|
                    0 <= j < it.index() && *ks[j] == id.0,
        {
            let id = NodeId(*k);
            let ghost n = it.index();
            let ghost prior = out@;
            insert_ascending(&mut out, id);
            proof {
                assert forall|x: NodeId| #[trigger] out@.contains(x) <==> exists|j: int|
                    0 <= j < n + 1 && *ks[j] == x.0 by {
                    assert(out@.to_set().contains(x) == (prior.to_set().contains(x) || x == id));
                    assert(*ks[n as int] == id.0);
                }
            }
        }
        proof {
            assert forall|id: NodeId| out@.to_set().contains(id) <==> self@.dom().contains(id) by {
                let us = ks.unref();
                assert(us.to_set().contains(id.0) <==> self.map@.dom().contains(id.0));
                if us.contains(id.0) {
                    let j = choose|j: int| 0 <= j < us.len() && us[j] == id.0;
                    assert(*ks[j] == id.0);
                }
                if out@.contains(id) {
                    let j = choose|j: int| 0 <= j < ks.len() && *ks[j] == id.0;
                    assert(us[j] == id.0);
                }
            }
            assert(out@.to_set() =~= self@.dom());
            lemma_sorted_ids(out@);
            self.lemma_size();
        }
        out
    }
}

} // verus!
