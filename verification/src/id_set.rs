//! Sets of nodes, and numbers by node and property.
use std::collections::{HashMap, HashSet};
use vstd::prelude::*;

use crate::node::NodeId;
use crate::text::copy;
use crate::text_map::TextMap;

verus! {

broadcast use vstd::std_specs::hash::group_hash_axioms;

/// A set of nodes.
#[derive(Debug)]
pub struct IdSet {
    set: HashSet<u64>,
}

impl View for IdSet {
    type V = Set<NodeId>;

    closed spec fn view(&self) -> Set<NodeId> {
        Set::new(|id: NodeId| self.set@.contains(id.0))
    }
}

impl IdSet {
    /// The empty set.
    pub fn new() -> (r: IdSet)
        ensures
            r@ == Set::<NodeId>::empty(),
    {
        let r = IdSet { set: HashSet::new() };
        assert(r@ =~= Set::<NodeId>::empty());
        r
    }

    /// Puts a node into the set.
    pub fn insert(&mut self, id: NodeId)
        ensures
            final(self)@ == old(self)@.insert(id),
    {
        let _new = self.set.insert(id.0);
        assert(self@ =~= old(self)@.insert(id));
    }

    /// `true` exactly when the node is in the set.
    pub fn contains(&self, id: &NodeId) -> (r: bool)
        ensures
            r == self@.contains(*id),
    {
        self.set.contains(&id.0)
    }

    /// `true` exactly when no node is in the set.
    pub fn is_empty(&self) -> (r: bool)
        ensures
            r == (self@ == Set::<NodeId>::empty()),
    {
        let r = self.set.is_empty();
        proof {
            if r {
                assert(self@ =~= Set::<NodeId>::empty());
            } else {
                let k = choose|k: u64| self.set@.contains(k);
                if self@ == Set::<NodeId>::empty() {
                    assert(!self@.contains(NodeId(k)));
                    assert(self.set@ =~= Set::<u64>::empty());
                }
            }
        }
        r
    }
}

/// Numbers by node and property.
#[derive(Debug)]
pub struct PropTable {
    map: HashMap<u64, TextMap<u32>>,
}

impl View for PropTable {
    type V = Map<(NodeId, Seq<char>), u32>;

    closed spec fn view(&self) -> Map<(NodeId, Seq<char>), u32> {
        Map::new(
            |k: (NodeId, Seq<char>)| self.map@.contains_key((k.0).0) && self.map@[(k.0).0]@.contains_key(k.1),
            |k: (NodeId, Seq<char>)| self.map@[(k.0).0]@[k.1],
        )
    }
}

impl PropTable {
    /// An empty table.
    pub fn new() -> (r: PropTable)
        ensures
            r@ == Map::<(NodeId, Seq<char>), u32>::empty(),
    {
        let r = PropTable { map: HashMap::new() };
        assert(r@ =~= Map::<(NodeId, Seq<char>), u32>::empty());
        r
    }

    /// The number of a property of a node, if there is one.
    pub fn get(&self, id: NodeId, prop: &str) -> (r: Option<u32>)
        ensures
            r == if self@.dom().contains((id, prop@)) {
                Some(self@[(id, prop@)])
            } else {
                None
            },
    {
        match self.map.get(&id.0) {
            Some(m) => match m.get(prop) {
                Some(v) => Some(*v),
                None => None,
            },
            None => None,
        }
    }

    /// Sets the number of a property of a node.
    pub fn insert(&mut self, id: NodeId, prop: &str, v: u32)
        ensures
            final(self)@ == old(self)@.insert((id, prop@), v),
    {
        let ghost was = *self;
        let mut m: TextMap<u32> = match self.map.remove(&id.0) {
            Some(m) => m,
            None => TextMap::new(),
        };
        m.insert(copy(prop), v);
        let _none = self.map.insert(id.0, m);
        assert(self@ =~= was@.insert((id, prop@), v));
    }
}

} // verus!
