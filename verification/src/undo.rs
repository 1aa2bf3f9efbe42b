//! Inverse mutations, and undo as a new, logged edit.
use vstd::prelude::*;

use crate::coherence::{above, ancestor, coherent, on_cycle};
use crate::coherence_law::{
    children_distinct, law_logs_build_coherent_trees, lemma_coherent_is, lemma_fewer_ancestors,
    lemma_removed_comes_back,
};
use crate::ir::{
    applied, edit_models, empty_doc, empty_tree, step, verdict, DocModel, Document, Edit, EditModel,
    IrError, Mutation, MutationModel, Origin, Tree,
};
use crate::node::{lacking, NodeId};

verus! {

/// The mutation that takes back `m`, where `t` is the tree that `m` acted on.
pub open spec fn inverse_of(m: MutationModel, t: Tree) -> Option<MutationModel> {
    match m {
        MutationModel::CreateNode { id, .. } => Some(MutationModel::RemoveNode { id }),
        MutationModel::SetRoot { .. } => match t.root {
            Some(id) => Some(MutationModel::SetRoot { id }),
            None => None,
        },
        MutationModel::SetProp { id, key, .. } => if !t.nodes.dom().contains(id) {
            None
        } else if t.nodes[id].props.dom().contains(key) {
            Some(MutationModel::SetProp { id, key, value: t.nodes[id].props[key] })
        } else {
            Some(MutationModel::RemoveProp { id, key })
        },
        MutationModel::RemoveProp { id, key } => if t.nodes.dom().contains(id)
            && t.nodes[id].props.dom().contains(key) {
            Some(MutationModel::SetProp { id, key, value: t.nodes[id].props[key] })
        } else {
            None
        },
        MutationModel::AppendChild { parent, child } => Some(
            MutationModel::RemoveChild { parent, child },
        ),
        MutationModel::RemoveChild { parent, child } => Some(
            MutationModel::AppendChild { parent, child },
        ),
        MutationModel::RemoveNode { id } => if t.nodes.dom().contains(id) {
            Some(
                MutationModel::Reconstruct {
                    id,
                    node: t.nodes[id],
                    was_root: t.root == Some(id),
                },
            )
        } else {
            None
        },
        MutationModel::SetCallback { id, event, .. } => if !t.nodes.dom().contains(id) {
            None
        } else if t.nodes[id].callbacks.dom().contains(event) {
            Some(
                MutationModel::SetCallback { id, event, action: t.nodes[id].callbacks[event] },
            )
        } else {
            Some(MutationModel::RemoveCallback { id, event })
        },
        MutationModel::SetBinding { id, key, .. } => if !t.nodes.dom().contains(id) {
            None
        } else if t.nodes[id].bindings.dom().contains(key) {
            Some(MutationModel::SetBinding { id, key, binding: t.nodes[id].bindings[key] })
        } else {
            Some(MutationModel::RemoveBinding { id, key })
        },
        MutationModel::Reconstruct { .. } => None,
        MutationModel::RemoveCallback { .. } => None,
        MutationModel::RemoveBinding { .. } => None,
        MutationModel::Invoke { .. } => None,
    }
}

impl Mutation {
    /// The mutation that takes this one back, given the document that it acted on. There is none
    /// for a fired callback, for the removals that only undo itself makes, for a root that had no
    /// predecessor, and where the document lacks what was replaced.
    pub fn inverse(&self, doc: &Document) -> (r: Option<Mutation>)
        ensures
            match inverse_of(self@, doc@.tree) {
                Some(m) => r is Some && r->0@ == m,
                None => r is None,
            },
    {
        match self {
            Mutation::CreateNode { id, kind: _ } => Some(Mutation::RemoveNode { id: *id }),
            Mutation::SetRoot { id: _ } => match doc.root() {
                Some(prev) => Some(Mutation::SetRoot { id: prev }),
                None => None,
            },
            Mutation::SetProp { id, key, value: _ } => match doc.get(*id) {
                None => None,
                Some(node) => match node.props.get(key.as_str()) {
                    Some(prev) => Some(
                        Mutation::SetProp { id: *id, key: key.clone(), value: prev.clone() },
                    ),
                    None => Some(Mutation::RemoveProp { id: *id, key: key.clone() }),
                },
            },
            Mutation::RemoveProp { id, key } => match doc.get(*id) {
                None => None,
                Some(node) => match node.props.get(key.as_str()) {
                    Some(prev) => Some(
                        Mutation::SetProp { id: *id, key: key.clone(), value: prev.clone() },
                    ),
                    None => None,
                },
            },
            Mutation::AppendChild { parent, child } => Some(
                Mutation::RemoveChild { parent: *parent, child: *child },
            ),
            Mutation::RemoveChild { parent, child } => Some(
                Mutation::AppendChild { parent: *parent, child: *child },
            ),
            Mutation::RemoveNode { id } => match doc.get(*id) {
                None => None,
                Some(node) => {
                    let was_root = match doc.root() {
                        Some(r) => r == *id,
                        None => false,
                    };
                    Some(
                        Mutation::Reconstruct { id: *id, node: Box::new(node.clone()), was_root },
                    )
                },
            },
            Mutation::SetCallback { id, event, action: _ } => match doc.get(*id) {
                None => None,
                Some(node) => match node.callbacks.get(event.as_str()) {
                    Some(prev) => Some(
                        Mutation::SetCallback {
                            id: *id,
                            event: event.clone(),
                            action: prev.clone(),
                        },
                    ),
                    None => Some(Mutation::RemoveCallback { id: *id, event: event.clone() }),
                },
            },
            Mutation::SetBinding { id, key, binding: _ } => match doc.get(*id) {
                None => None,
                Some(node) => match node.bindings.get(key.as_str()) {
                    Some(prev) => Some(
                        Mutation::SetBinding { id: *id, key: key.clone(), binding: prev.clone() },
                    ),
                    None => Some(Mutation::RemoveBinding { id: *id, key: key.clone() }),
                },
            },
            Mutation::Reconstruct { .. } => None,
            Mutation::RemoveCallback { .. } => None,
            Mutation::RemoveBinding { .. } => None,
            Mutation::Invoke { .. } => None,
        }
    }
}

/// The position of the last edit that is not a fired callback.
pub open spec fn last_structural(log: Seq<EditModel>) -> Option<int>
    decreases log.len(),
{
    if log.len() == 0 {
        None
    } else if log.last().mutation is Invoke {
        last_structural(log.drop_last())
    } else {
        Some(log.len() - 1)
    }
}

/// The tree that a log builds up from nothing, if every edit in it is accepted.
pub open spec fn replay(log: Seq<EditModel>) -> Option<Tree>
    decreases log.len(),
{
    if log.len() == 0 {
        Some(empty_tree())
    } else {
        match replay(log.drop_last()) {
            None => None,
            Some(t) => match step(t, log.last().mutation) {
                Ok(t1) => Some(t1),
                Err(_) => None,
            },
        }
    }
}

/// The mutation that undo applies: the inverse of the last structural edit against the tree
/// that the log had built just before it.
pub open spec fn undo_step(log: Seq<EditModel>) -> Option<MutationModel> {
    match last_structural(log) {
        None => None,
        Some(i) => match replay(log.take(i)) {
            None => None,
            Some(t) => inverse_of(log[i].mutation, t),
        },
    }
}

/// The last structural edit is no fired callback, and only fired callbacks follow it.
pub proof fn lemma_last_structural(log: Seq<EditModel>)
    ensures
        last_structural(log) matches Some(i) ==> 0 <= i < log.len() && !(log[i].mutation is Invoke)
            && forall|k: int| i < k < log.len() ==> (#[trigger] log[k]).mutation is Invoke,
        last_structural(log) is None ==> forall|k: int|
            0 <= k < log.len() ==> (#[trigger] log[k]).mutation is Invoke,
    decreases log.len(),
{
    if log.len() > 0 && log.last().mutation is Invoke {
        lemma_last_structural(log.drop_last());
        assert forall|k: int| 0 <= k < log.len() - 1 implies log.drop_last()[k] == log[k] by {}
    }
}

proof fn lemma_replay_prefix(log: Seq<EditModel>, i: int)
    requires
        0 <= i <= log.len(),
        replay(log.take(i)) is None,
    ensures
        replay(log) is None,
    decreases log.len() - i,
{
    if i < log.len() {
        assert(log.take(i + 1).drop_last() =~= log.take(i));
        lemma_replay_prefix(log, i + 1);
    } else {
        assert(log.take(i) =~= log);
    }
}

impl Document {
    /// Takes back the last edit that changed the tree, as a new edit of `origin`. Where nothing
    /// was changed, or the edit has no inverse, the document stays as it is.
    pub fn undo_last(&mut self, origin: Origin) -> (r: Result<(), IrError>)
        ensures
            match undo_step(old(self)@.log) {
                Some(m) => {
                    &&& r == verdict(old(self)@, m)
                    &&& final(self)@ == applied(old(self)@, origin, m)
                },
                None => r == Ok::<(), IrError>(()) && final(self)@ == old(self)@,
            },
    {
        let ghost log = self@.log;
        let edits: &[Edit] = self.audit_log();
        let mut n: usize = edits.len();
        assert(log.take(n as int) =~= log);
        while n > 0 && is_invoke(&edits[n - 1].mutation)
            invariant
                n <= edits@.len(),
                edit_models(edits@) == log,
                last_structural(log) == last_structural(log.take(n as int)),
            decreases n,
        {
            assert(log.take(n as int).last() == edits@[n - 1]@);
            assert(log.take(n as int).drop_last() =~= log.take(n - 1));
            n = n - 1;
        }
        if n == 0 {
            return Ok(());
        }
        let at: usize = n - 1;
        assert(log.take(n as int).last() == edits@[n - 1]@);
        let mut pre = Document::new();
        let mut i: usize = 0;
        assert(log.take(0) =~= Seq::<EditModel>::empty());
        while i < at
            invariant
                i <= at < edits@.len(),
                edit_models(edits@) == log,
                replay(log.take(i as int)) == Some(pre@.tree),
                last_structural(log) == Some(at as int),
                log == old(self)@.log,
            decreases at - i,
        {
            assert(log.take(i + 1).drop_last() =~= log.take(i as int));
            assert(log.take(i + 1).last() == edits@[i as int]@);
            match pre.dispatch(&edits[i].mutation) {
                Ok(_) => {},
                Err(_) => {
                    proof {
                        assert(log.take(at as int).take(i + 1) =~= log.take(i + 1));
                        lemma_replay_prefix(log.take(at as int), i + 1);
                    }
                    return Ok(());
                },
            }
            i += 1;
        }
        let inverse = edits[at].mutation.inverse(&pre);
        match inverse {
            Some(m) => self.apply_from(origin, m),
            None => Ok(()),
        }
    }
}

fn is_invoke(m: &Mutation) -> (r: bool)
    ensures
        r == (m@ is Invoke),
{
    match m {
        Mutation::Invoke { .. } => true,
        _ => false,
    }
}

/// The trees on which taking back `m` leads back exactly to the tree before it, of those whose links
/// agree. Everything can be taken back except: an append that found the child under a parent, this
/// one or another; a removal of a child that was not last; and a removal of a node that was not the
/// last child of its parent.
pub open spec fn restorable(t: Tree, m: MutationModel) -> bool {
    match m {
        MutationModel::AppendChild { parent, child } => t.nodes[child].parent is None,
        MutationModel::RemoveChild { parent, child } => t.nodes[parent].children.last() == child,
        MutationModel::RemoveNode { id } => t.nodes[id].parent matches Some(p) ==> t.nodes[p].children.last() == id,
        _ => true,
    }
}

/// `x` is the last item of `s` and occurs nowhere else in it.
pub open spec fn last_and_single(s: Seq<NodeId>, x: NodeId) -> bool {
    s.len() > 0 && s.last() == x && !s.drop_last().contains(x)
}

/// Filtering out what is not there changes nothing.
pub proof fn lemma_filter_absent(s: Seq<NodeId>, x: NodeId)
    requires
        !s.contains(x),
    ensures
        lacking(s, x) == s,
    decreases s.len(),
{
    reveal(Seq::filter);
    if s.len() > 0 {
        assert(!s.drop_last().contains(x)) by {
            if s.drop_last().contains(x) {
                let k = choose|k: int| 0 <= k < s.drop_last().len() && s.drop_last()[k] == x;
                assert(s[k] == x);
            }
        }
        lemma_filter_absent(s.drop_last(), x);
        assert(s.last() == s[s.len() - 1]);
        assert(s.last() != x);
        assert(s =~= s.drop_last().push(s.last()));
    } else {
        assert(lacking(s, x) =~= s);
    }
}

proof fn lemma_filter_excludes(s: Seq<NodeId>, x: NodeId)
    ensures
        !lacking(s, x).contains(x),
        lacking(s, x).len() <= s.len(),
    decreases s.len(),
{
    reveal(Seq::filter);
    if s.len() > 0 {
        lemma_filter_excludes(s.drop_last(), x);
        let f = lacking(s.drop_last(), x);
        let g = f.push(s.last());
        if g.contains(x) && s.last() != x {
            let k = choose|k: int| 0 <= k < g.len() && g[k] == x;
            assert(f[k] == x);
        }
    }
}

/// Filtering out `x` and putting it at the end gives `s` back exactly when `s` ends in its only `x`.
proof fn lemma_filter_push(s: Seq<NodeId>, x: NodeId)
    ensures
        lacking(s, x).push(x) == s <==> last_and_single(s, x),
{
    reveal(Seq::filter);
    let f = lacking(s, x);
    lemma_filter_excludes(s, x);
    if last_and_single(s, x) {
        lemma_filter_absent(s.drop_last(), x);
        assert(f =~= s.drop_last());
        assert(f.push(x) =~= s);
    }
    if f.push(x) == s {
        assert(s.last() == x);
        assert(s.drop_last() =~= f);
    }
}

/// Removing the first `x` and putting it at the end gives `s` back exactly when `s` ends in its
/// only `x`.
proof fn lemma_remove_push(s: Seq<NodeId>, x: NodeId)
    requires
        s.contains(x),
    ensures
        ({
            let r = s.remove(s.index_of_first(x)->0);
            (if r.contains(x) { r } else { r.push(x) }) == s <==> last_and_single(s, x)
        }),
{
    s.index_of_first_ensures(x);
    let at = s.index_of_first(x)->0;
    let r = s.remove(at);
    assert(r.len() == s.len() - 1);
    if last_and_single(s, x) {
        if at < s.len() - 1 {
            assert(s.drop_last()[at] == x);
            assert(s.drop_last().contains(x));
        }
        assert(at == s.len() - 1);
        assert(r =~= s.drop_last());
        assert(r.push(x) =~= s);
    }
    let back = if r.contains(x) { r } else { r.push(x) };
    if back == s {
        assert(!r.contains(x));
        assert(s.last() == x);
        assert(s.drop_last() =~= r);
    }
}

proof fn lemma_last_single(s: Seq<NodeId>, x: NodeId)
    requires
        s.no_duplicates(),
        s.contains(x),
    ensures
        last_and_single(s, x) <==> s.last() == x,
{
    if s.drop_last().contains(x) {
        let i = choose|i: int| 0 <= i < s.drop_last().len() && s.drop_last()[i] == x;
        assert(s[i] == x);
        assert(s.last() == s[s.len() - 1]);
    }
}

/// A child that was detached can be appended where it was.
proof fn lemma_reappended(t: Tree, parent: NodeId, child: NodeId)
    requires
        coherent(t),
        children_distinct(t),
        step(t, MutationModel::RemoveChild { parent, child }) is Ok,
    ensures
        ({
            let u = step(t, MutationModel::RemoveChild { parent, child })->Ok_0;
            !above(u, child, parent)
        }),
{
    let u = step(t, MutationModel::RemoveChild { parent, child })->Ok_0;
    lemma_coherent_is(t);
    assert(t.nodes[parent].children.contains(child));
    if above(u, child, parent) {
        let k = choose|k: nat| #[trigger] ancestor(u, parent, k) == Some(child);
        lemma_fewer_ancestors(t, u, parent, k);
        assert(ancestor(t, parent, k + 1) == Some(parent));
        assert(on_cycle(t, parent));
    }
}

/// Taking back an accepted mutation leads back to the tree before it, exactly on the trees that
/// `restorable` describes.
pub proof fn law_inverse_restores(t: Tree, m: MutationModel)
    requires
        coherent(t),
        children_distinct(t),
        step(t, m) is Ok,
        inverse_of(m, t) is Some,
    ensures
        step(step(t, m)->Ok_0, inverse_of(m, t)->0) == Ok::<Tree, IrError>(t) <==> restorable(t, m),
{
    let t1 = step(t, m)->Ok_0;
    let inv = inverse_of(m, t)->0;
    lemma_coherent_is(t);
    match m {
        MutationModel::CreateNode { id, .. } => {
            let t2 = step(t1, inv)->Ok_0;
            assert forall|x: NodeId| #[trigger] t.nodes.dom().contains(x) implies t2.nodes[x] == t.nodes[x] by {
                assert(t.nodes[x].parent is Some ==> t.nodes.dom().contains(t.nodes[x].parent->0));
                assert(t2.nodes[x] =~= t.nodes[x]);
            }
            assert(t2.nodes =~= t.nodes);
        },
        MutationModel::SetRoot { id } => {},
        MutationModel::SetProp { id, key, value } => {
            let t2 = step(t1, inv)->Ok_0;
            assert(t2.nodes[id].props =~= t.nodes[id].props);
            assert(t2.nodes[id] =~= t.nodes[id]);
            assert(t2.nodes =~= t.nodes);
        },
        MutationModel::RemoveProp { id, key } => {
            let t2 = step(t1, inv)->Ok_0;
            assert(t2.nodes[id].props =~= t.nodes[id].props);
            assert(t2.nodes[id] =~= t.nodes[id]);
            assert(t2.nodes =~= t.nodes);
        },
        MutationModel::SetCallback { id, event, action } => {
            let t2 = step(t1, inv)->Ok_0;
            assert(t2.nodes[id].callbacks =~= t.nodes[id].callbacks);
            assert(t2.nodes[id] =~= t.nodes[id]);
            assert(t2.nodes =~= t.nodes);
        },
        MutationModel::SetBinding { id, key, binding } => {
            let t2 = step(t1, inv)->Ok_0;
            assert(t2.nodes[id].bindings =~= t.nodes[id].bindings);
            assert(t2.nodes[id] =~= t.nodes[id]);
            assert(t2.nodes =~= t.nodes);
        },
        MutationModel::AppendChild { parent, child } => {
            assert(ancestor(t, parent, 0) == Some(parent));
            assert(t.nodes[parent].children.contains(child) <==> t.nodes[child].parent == Some(parent));
            let cs = t.nodes[parent].children;
            let cs1 = t1.nodes[parent].children;
            assert(cs1.contains(child)) by {
                if !cs.contains(child) {
                    assert(cs.push(child)[cs.len() as int] == child);
                }
            }
            cs1.index_of_first_ensures(child);
            let t2 = step(t1, inv)->Ok_0;
            assert(step(t1, inv) is Ok);
            assert(t2.nodes[child].parent is None);
            if cs.contains(child) {
                assert(cs1 == cs);
                assert(t2.nodes[parent].children.len() == cs.len() - 1);
            } else {
                let at = cs1.index_of_first(child)->0;
                if at < cs.len() {
                    assert(cs[at] == child);
                }
                assert(cs1.remove(at) =~= cs);
            }
            if restorable(t, m) {
                assert(t2.nodes[parent] =~= t.nodes[parent]);
                assert(t2.nodes[child] =~= t.nodes[child]);
                assert(t2.nodes =~= t.nodes);
            }
        },
        MutationModel::RemoveChild { parent, child } => {
            let cs = t.nodes[parent].children;
            assert(t.nodes[parent].children.contains(child));
            lemma_remove_push(cs, child);
            lemma_last_single(cs, child);
            lemma_reappended(t, parent, child);
            let t2 = step(t1, inv)->Ok_0;
            assert(t2.nodes[child].parent == Some(parent));
            if restorable(t, m) {
                assert(t2.nodes[parent] =~= t.nodes[parent]);
                assert(t2.nodes[child] =~= t.nodes[child]);
                assert(t2.nodes =~= t.nodes);
            }
        },
        MutationModel::RemoveNode { id } => {
            let n = t.nodes[id];
            let t2 = step(t1, inv)->Ok_0;
            lemma_removed_comes_back(t, id);
            assert(t2.nodes.dom() =~= t.nodes.dom());
            assert forall|x: NodeId| #[trigger] t.nodes.dom().contains(x) && n.parent != Some(x) implies t2.nodes[x]
                == t.nodes[x] by {
                assert(t.nodes[id].children.contains(x) <==> t.nodes[x].parent == Some(id));
                assert(t2.nodes[x] =~= t.nodes[x]);
            }
            match n.parent {
                Some(p) => {
                    let cs = t.nodes[p].children;
                    assert(t.nodes[id].parent == Some(p));
                    assert(t.nodes[p].children.contains(id));
                    assert(t.nodes[id].children.contains(p) <==> t.nodes[p].parent == Some(id));
                    lemma_filter_push(cs, id);
                    lemma_filter_excludes(cs, id);
                    lemma_last_single(cs, id);
                    assert(t2.nodes[p].children == lacking(cs, id).push(id));
                    if restorable(t, m) {
                        assert(t2.nodes[p] =~= t.nodes[p]);
                    }
                    assert(restorable(t, m) ==> t2.nodes =~= t.nodes);
                },
                None => {
                    assert(t2.nodes =~= t.nodes);
                },
            }
        },
        _ => {},
    }
}

/// A document is its own ledger: its log rebuilds its tree.
pub open spec fn ledgered(d: DocModel) -> bool {
    replay(d.log) == Some(d.tree)
}

/// A new document is its own ledger.
pub proof fn law_new_is_ledgered()
    ensures
        ledgered(empty_doc()),
{
}

/// Every edit, accepted or refused, keeps a document its own ledger.
pub proof fn law_applied_is_ledgered(d: DocModel, origin: Origin, m: MutationModel)
    requires
        ledgered(d),
    ensures
        ledgered(applied(d, origin, m)),
{
    let d1 = applied(d, origin, m);
    if step(d.tree, m) is Ok {
        assert(d1.log.drop_last() =~= d.log);
    }
}

proof fn lemma_invokes_keep(log: Seq<EditModel>, i: int)
    requires
        0 < i <= log.len(),
        replay(log) is Some,
        forall|k: int| i <= k < log.len() ==> (#[trigger] log[k]).mutation is Invoke,
    ensures
        replay(log.take(i)) == replay(log),
    decreases log.len() - i,
{
    if i == log.len() {
        assert(log.take(i) =~= log);
    } else {
        let shorter = log.drop_last();
        assert(log.last() == log[log.len() - 1]);
        assert(replay(shorter) is Some);
        assert forall|k: int| i <= k < shorter.len() implies (#[trigger] shorter[k]).mutation is Invoke by {
            assert(shorter[k] == log[k]);
        }
        lemma_invokes_keep(shorter, i);
        assert(shorter.take(i) =~= log.take(i));
    }
}

/// Undo leads a document that is its own ledger back to the tree before its last structural edit,
/// exactly where `restorable` says so; the edits logged so far stay in the log.
pub proof fn law_undo_restores(d: DocModel, origin: Origin)
    requires
        ledgered(d),
        undo_step(d.log) is Some,
    ensures
        ({
            let i = last_structural(d.log)->0;
            let before = replay(d.log.take(i))->0;
            let d1 = applied(d, origin, undo_step(d.log)->0);
            &&& replay(d.log.take(i)) is Some
            &&& (verdict(d, undo_step(d.log)->0) is Ok && d1.tree == before <==> restorable(
                before,
                d.log[i].mutation,
            ))
            &&& d.log.is_prefix_of(d1.log)
        }),
{
    lemma_last_structural(d.log);
    let i = last_structural(d.log)->0;
    let before = replay(d.log.take(i))->0;
    let m = d.log[i].mutation;
    lemma_invokes_keep(d.log, i + 1);
    let upto = d.log.take(i + 1);
    assert(upto.drop_last() =~= d.log.take(i));
    assert(upto.last() == d.log[i]);
    assert(step(before, m) == Ok::<Tree, IrError>(d.tree));
    law_logs_build_coherent_trees(d.log.take(i));
    law_inverse_restores(before, m);
}

} // verus!
