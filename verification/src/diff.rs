//! The mutations that turn one document into another.
use vstd::prelude::*;

use crate::ir::{Document, Mutation, MutationModel, Tree};
use crate::node::{bare_node, has_id, sorted_ids, Node, NodeId, NodeModel};
use crate::text::in_order;
use crate::value::{action_same, value_same, ActionModel, ValueModel};

verus! {

/// The models of a sequence of mutations.
pub open spec fn mutation_models(s: Seq<Mutation>) -> Seq<MutationModel> {
    s.map_values(|m: Mutation| m@)
}

/// The property is there with an equal value.
pub open spec fn keeps_prop(on: NodeModel, k: Seq<char>, v: ValueModel) -> bool {
    on.props.dom().contains(k) && value_same(on.props[k], v)
}

/// The callback is there with an equal action.
pub open spec fn keeps_callback(on: NodeModel, k: Seq<char>, a: ActionModel) -> bool {
    on.callbacks.dom().contains(k) && action_same(on.callbacks[k], a)
}

/// The binding is there with the same expression.
pub open spec fn keeps_binding(on: NodeModel, k: Seq<char>, b: Seq<char>) -> bool {
    on.bindings.dom().contains(k) && on.bindings[k] == b
}

/// Sets the changed and added ones among the first `i` properties of `nn`.
pub open spec fn prop_sets(id: NodeId, on: NodeModel, nn: NodeModel, i: int) -> Seq<MutationModel>
    decreases i,
{
    if i <= 0 {
        Seq::empty()
    } else {
        let k = in_order(nn.props.dom())[i - 1];
        let rest = prop_sets(id, on, nn, i - 1);
        if keeps_prop(on, k, nn.props[k]) {
            rest
        } else {
            rest.push(MutationModel::SetProp { id, key: k, value: nn.props[k] })
        }
    }
}

/// Removes the dropped ones among the first `i` properties of `on`.
pub open spec fn prop_drops(id: NodeId, on: NodeModel, nn: NodeModel, i: int) -> Seq<MutationModel>
    decreases i,
{
    if i <= 0 {
        Seq::empty()
    } else {
        let k = in_order(on.props.dom())[i - 1];
        let rest = prop_drops(id, on, nn, i - 1);
        if nn.props.dom().contains(k) {
            rest
        } else {
            rest.push(MutationModel::RemoveProp { id, key: k })
        }
    }
}

/// Sets the changed and added ones among the first `i` callbacks of `nn`.
pub open spec fn callback_sets(id: NodeId, on: NodeModel, nn: NodeModel, i: int) -> Seq<MutationModel>
    decreases i,
{
    if i <= 0 {
        Seq::empty()
    } else {
        let k = in_order(nn.callbacks.dom())[i - 1];
        let rest = callback_sets(id, on, nn, i - 1);
        if keeps_callback(on, k, nn.callbacks[k]) {
            rest
        } else {
            rest.push(MutationModel::SetCallback { id, event: k, action: nn.callbacks[k] })
        }
    }
}

/// Removes the dropped ones among the first `i` callbacks of `on`.
pub open spec fn callback_drops(id: NodeId, on: NodeModel, nn: NodeModel, i: int) -> Seq<MutationModel>
    decreases i,
{
    if i <= 0 {
        Seq::empty()
    } else {
        let k = in_order(on.callbacks.dom())[i - 1];
        let rest = callback_drops(id, on, nn, i - 1);
        if nn.callbacks.dom().contains(k) {
            rest
        } else {
            rest.push(MutationModel::RemoveCallback { id, event: k })
        }
    }
}

/// Sets the changed and added ones among the first `i` bindings of `nn`.
pub open spec fn binding_sets(id: NodeId, on: NodeModel, nn: NodeModel, i: int) -> Seq<MutationModel>
    decreases i,
{
    if i <= 0 {
        Seq::empty()
    } else {
        let k = in_order(nn.bindings.dom())[i - 1];
        let rest = binding_sets(id, on, nn, i - 1);
        if keeps_binding(on, k, nn.bindings[k]) {
            rest
        } else {
            rest.push(MutationModel::SetBinding { id, key: k, binding: nn.bindings[k] })
        }
    }
}

/// Removes the dropped ones among the first `i` bindings of `on`.
pub open spec fn binding_drops(id: NodeId, on: NodeModel, nn: NodeModel, i: int) -> Seq<MutationModel>
    decreases i,
{
    if i <= 0 {
        Seq::empty()
    } else {
        let k = in_order(on.bindings.dom())[i - 1];
        let rest = binding_drops(id, on, nn, i - 1);
        if nn.bindings.dom().contains(k) {
            rest
        } else {
            rest.push(MutationModel::RemoveBinding { id, key: k })
        }
    }
}

/// Detaches the dropped ones among the first `i` children of `on`.
pub open spec fn child_drops(id: NodeId, on: NodeModel, nn: NodeModel, i: int) -> Seq<MutationModel>
    decreases i,
{
    if i <= 0 {
        Seq::empty()
    } else {
        let c = on.children[i - 1];
        let rest = child_drops(id, on, nn, i - 1);
        if nn.children.contains(c) {
            rest
        } else {
            rest.push(MutationModel::RemoveChild { parent: id, child: c })
        }
    }
}

/// Appends the added ones among the first `i` children of `nn`.
pub open spec fn child_adds(id: NodeId, on: NodeModel, nn: NodeModel, i: int) -> Seq<MutationModel>
    decreases i,
{
    if i <= 0 {
        Seq::empty()
    } else {
        let c = nn.children[i - 1];
        let rest = child_adds(id, on, nn, i - 1);
        if on.children.contains(c) {
            rest
        } else {
            rest.push(MutationModel::AppendChild { parent: id, child: c })
        }
    }
}

/// The edits to the content of one node: properties, callbacks, bindings, then the children that it
/// loses.
pub open spec fn content_delta(id: NodeId, on: NodeModel, nn: NodeModel) -> Seq<MutationModel> {
    prop_sets(id, on, nn, in_order(nn.props.dom()).len() as int)
        + prop_drops(id, on, nn, in_order(on.props.dom()).len() as int)
        + callback_sets(id, on, nn, in_order(nn.callbacks.dom()).len() as int)
        + callback_drops(id, on, nn, in_order(on.callbacks.dom()).len() as int)
        + binding_sets(id, on, nn, in_order(nn.bindings.dom()).len() as int)
        + binding_drops(id, on, nn, in_order(on.bindings.dom()).len() as int)
        + child_drops(id, on, nn, on.children.len() as int)
}

/// What a node of the new tree is compared with: the old node, or an empty one where it is new.
pub open spec fn baseline(old: Tree, id: NodeId) -> NodeModel {
    if old.nodes.dom().contains(id) {
        old.nodes[id]
    } else {
        bare_node(Seq::empty())
    }
}

/// Creates the new ones among the first `i` nodes of `new`.
pub open spec fn creations(old: Tree, new: Tree, i: int) -> Seq<MutationModel>
    decreases i,
{
    if i <= 0 {
        Seq::empty()
    } else {
        let id = sorted_ids(new.nodes.dom())[i - 1];
        let rest = creations(old, new, i - 1);
        if old.nodes.dom().contains(id) {
            rest
        } else {
            rest.push(MutationModel::CreateNode { id, kind: new.nodes[id].kind })
        }
    }
}

/// The content edits of the first `i` nodes of `new`.
pub open spec fn deltas(old: Tree, new: Tree, i: int) -> Seq<MutationModel>
    decreases i,
{
    if i <= 0 {
        Seq::empty()
    } else {
        let id = sorted_ids(new.nodes.dom())[i - 1];
        deltas(old, new, i - 1) + content_delta(id, baseline(old, id), new.nodes[id])
    }
}

/// Appends the added children of the first `i` nodes of `new`.
pub open spec fn adds(old: Tree, new: Tree, i: int) -> Seq<MutationModel>
    decreases i,
{
    if i <= 0 {
        Seq::empty()
    } else {
        let id = sorted_ids(new.nodes.dom())[i - 1];
        adds(old, new, i - 1) + child_adds(
            id,
            baseline(old, id),
            new.nodes[id],
            new.nodes[id].children.len() as int,
        )
    }
}

/// The edit to the root, where the new tree has another one.
pub open spec fn root_delta(old: Tree, new: Tree) -> Seq<MutationModel> {
    if old.root == new.root {
        Seq::empty()
    } else {
        match new.root {
            Some(id) => seq![MutationModel::SetRoot { id }],
            None => Seq::empty(),
        }
    }
}

/// Removes the dropped ones among the first `i` nodes of `old`.
pub open spec fn removals(old: Tree, new: Tree, i: int) -> Seq<MutationModel>
    decreases i,
{
    if i <= 0 {
        Seq::empty()
    } else {
        let id = sorted_ids(old.nodes.dom())[i - 1];
        let rest = removals(old, new, i - 1);
        if new.nodes.dom().contains(id) {
            rest
        } else {
            rest.push(MutationModel::RemoveNode { id })
        }
    }
}

/// The whole stream: creations, content edits, added children, the root, removals. No child is
/// appended before all that are dropped are detached, so that one that moves is free by then.
pub open spec fn diff_model(old: Tree, new: Tree) -> Seq<MutationModel> {
    creations(old, new, sorted_ids(new.nodes.dom()).len() as int)
        + deltas(old, new, sorted_ids(new.nodes.dom()).len() as int)
        + adds(old, new, sorted_ids(new.nodes.dom()).len() as int)
        + root_delta(old, new)
        + removals(old, new, sorted_ids(old.nodes.dom()).len() as int)
}

fn emit(out: &mut Vec<Mutation>, m: Mutation)
    ensures
        mutation_models(final(out)@) == mutation_models(old(out)@).push(m@),
{
    let ghost before = out@;
    out.push(m);
    assert(mutation_models(out@) =~= mutation_models(before).push(m@));
}

fn emit_props(id: NodeId, on: &Node, nn: &Node, out: &mut Vec<Mutation>)
    ensures
        mutation_models(final(out)@) == mutation_models(old(out)@)
            + prop_sets(id, on@, nn@, in_order(nn@.props.dom()).len() as int)
            + prop_drops(id, on@, nn@, in_order(on@.props.dom()).len() as int),
{
    let ghost start = mutation_models(out@);
    assert(nn@.props.dom() =~= nn.props@.dom());
    assert(on@.props.dom() =~= on.props@.dom());
    let n: usize = nn.props.len();
    let mut i: usize = 0;
    assert(start + prop_sets(id, on@, nn@, 0) =~= start);
    while i < n
        invariant
            n == in_order(nn.props@.dom()).len(),
            nn@.props.dom() == nn.props@.dom(),
            on@.props.dom() == on.props@.dom(),
            i <= n,
            mutation_models(out@) == start + prop_sets(id, on@, nn@, i as int),
        decreases n - i,
    {
        let (k, v) = nn.props.entry(i);
        let keep = match on.props.get(k.as_str()) {
            Some(w) => w.same_as(v),
            None => false,
        };
        let ghost rest = prop_sets(id, on@, nn@, i as int);
        if !keep {
            emit(out, Mutation::SetProp { id, key: k.clone(), value: v.clone() });
            assert(mutation_models(out@) =~= start + rest.push(
                MutationModel::SetProp { id, key: k@, value: v@ },
            ));
        }
        i += 1;
    }
    let ghost middle = mutation_models(out@);
    let m: usize = on.props.len();
    let mut j: usize = 0;
    assert(middle + prop_drops(id, on@, nn@, 0) =~= middle);
    while j < m
        invariant
            m == in_order(on.props@.dom()).len(),
            nn@.props.dom() == nn.props@.dom(),
            on@.props.dom() == on.props@.dom(),
            j <= m,
            mutation_models(out@) == middle + prop_drops(id, on@, nn@, j as int),
        decreases m - j,
    {
        let (k, _v) = on.props.entry(j);
        let ghost rest = prop_drops(id, on@, nn@, j as int);
        if !nn.props.contains_key(k.as_str()) {
            emit(out, Mutation::RemoveProp { id, key: k.clone() });
            assert(mutation_models(out@) =~= middle + rest.push(
                MutationModel::RemoveProp { id, key: k@ },
            ));
        }
        j += 1;
    }
}

fn emit_callbacks(id: NodeId, on: &Node, nn: &Node, out: &mut Vec<Mutation>)
    ensures
        mutation_models(final(out)@) == mutation_models(old(out)@)
            + callback_sets(id, on@, nn@, in_order(nn@.callbacks.dom()).len() as int)
            + callback_drops(id, on@, nn@, in_order(on@.callbacks.dom()).len() as int),
{
    let ghost start = mutation_models(out@);
    assert(nn@.callbacks.dom() =~= nn.callbacks@.dom());
    assert(on@.callbacks.dom() =~= on.callbacks@.dom());
    let n: usize = nn.callbacks.len();
    let mut i: usize = 0;
    assert(start + callback_sets(id, on@, nn@, 0) =~= start);
    while i < n
        invariant
            n == in_order(nn.callbacks@.dom()).len(),
            nn@.callbacks.dom() == nn.callbacks@.dom(),
            on@.callbacks.dom() == on.callbacks@.dom(),
            i <= n,
            mutation_models(out@) == start + callback_sets(id, on@, nn@, i as int),
        decreases n - i,
    {
        let (k, a) = nn.callbacks.entry(i);
        let keep = match on.callbacks.get(k.as_str()) {
            Some(b) => b.same_as(a),
            None => false,
        };
        let ghost rest = callback_sets(id, on@, nn@, i as int);
        if !keep {
            emit(out, Mutation::SetCallback { id, event: k.clone(), action: a.clone() });
            assert(mutation_models(out@) =~= start + rest.push(
                MutationModel::SetCallback { id, event: k@, action: a@ },
            ));
        }
        i += 1;
    }
    let ghost middle = mutation_models(out@);
    let m: usize = on.callbacks.len();
    let mut j: usize = 0;
    assert(middle + callback_drops(id, on@, nn@, 0) =~= middle);
    while j < m
        invariant
            m == in_order(on.callbacks@.dom()).len(),
            nn@.callbacks.dom() == nn.callbacks@.dom(),
            on@.callbacks.dom() == on.callbacks@.dom(),
            j <= m,
            mutation_models(out@) == middle + callback_drops(id, on@, nn@, j as int),
        decreases m - j,
    {
        let (k, _a) = on.callbacks.entry(j);
        let ghost rest = callback_drops(id, on@, nn@, j as int);
        if !nn.callbacks.contains_key(k.as_str()) {
            emit(out, Mutation::RemoveCallback { id, event: k.clone() });
            assert(mutation_models(out@) =~= middle + rest.push(
                MutationModel::RemoveCallback { id, event: k@ },
            ));
        }
        j += 1;
    }
}

fn emit_bindings(id: NodeId, on: &Node, nn: &Node, out: &mut Vec<Mutation>)
    ensures
        mutation_models(final(out)@) == mutation_models(old(out)@)
            + binding_sets(id, on@, nn@, in_order(nn@.bindings.dom()).len() as int)
            + binding_drops(id, on@, nn@, in_order(on@.bindings.dom()).len() as int),
{
    let ghost start = mutation_models(out@);
    assert(nn@.bindings.dom() =~= nn.bindings@.dom());
    assert(on@.bindings.dom() =~= on.bindings@.dom());
    let n: usize = nn.bindings.len();
    let mut i: usize = 0;
    assert(start + binding_sets(id, on@, nn@, 0) =~= start);
    while i < n
        invariant
            n == in_order(nn.bindings@.dom()).len(),
            nn@.bindings.dom() == nn.bindings@.dom(),
            on@.bindings.dom() == on.bindings@.dom(),
            i <= n,
            mutation_models(out@) == start + binding_sets(id, on@, nn@, i as int),
        decreases n - i,
    {
        let (k, b) = nn.bindings.entry(i);
        let keep = match on.bindings.get(k.as_str()) {
            Some(c) => *c == *b,
            None => false,
        };
        let ghost rest = binding_sets(id, on@, nn@, i as int);
        if !keep {
            emit(out, Mutation::SetBinding { id, key: k.clone(), binding: b.clone() });
            assert(mutation_models(out@) =~= start + rest.push(
                MutationModel::SetBinding { id, key: k@, binding: b@ },
            ));
        }
        i += 1;
    }
    let ghost middle = mutation_models(out@);
    let m: usize = on.bindings.len();
    let mut j: usize = 0;
    assert(middle + binding_drops(id, on@, nn@, 0) =~= middle);
    while j < m
        invariant
            m == in_order(on.bindings@.dom()).len(),
            nn@.bindings.dom() == nn.bindings@.dom(),
            on@.bindings.dom() == on.bindings@.dom(),
            j <= m,
            mutation_models(out@) == middle + binding_drops(id, on@, nn@, j as int),
        decreases m - j,
    {
        let (k, _b) = on.bindings.entry(j);
        let ghost rest = binding_drops(id, on@, nn@, j as int);
        if !nn.bindings.contains_key(k.as_str()) {
            emit(out, Mutation::RemoveBinding { id, key: k.clone() });
            assert(mutation_models(out@) =~= middle + rest.push(
                MutationModel::RemoveBinding { id, key: k@ },
            ));
        }
        j += 1;
    }
}

fn emit_drops(id: NodeId, on: &Node, nn: &Node, out: &mut Vec<Mutation>)
    ensures
        mutation_models(final(out)@) == mutation_models(old(out)@)
            + child_drops(id, on@, nn@, on@.children.len() as int),
{
    let ghost start = mutation_models(out@);
    let mut i: usize = 0;
    assert(start + child_drops(id, on@, nn@, 0) =~= start);
    while i < on.children.len()
        invariant
            i <= on.children@.len(),
            mutation_models(out@) == start + child_drops(id, on@, nn@, i as int),
        decreases on.children.len() - i,
    {
        let c = on.children[i];
        let ghost rest = child_drops(id, on@, nn@, i as int);
        if !has_id(&nn.children, c) {
            emit(out, Mutation::RemoveChild { parent: id, child: c });
            assert(mutation_models(out@) =~= start + rest.push(
                MutationModel::RemoveChild { parent: id, child: c },
            ));
        }
        i += 1;
    }
}

fn emit_adds(id: NodeId, on: &Node, nn: &Node, out: &mut Vec<Mutation>)
    ensures
        mutation_models(final(out)@) == mutation_models(old(out)@)
            + child_adds(id, on@, nn@, nn@.children.len() as int),
{
    let ghost middle = mutation_models(out@);
    let mut j: usize = 0;
    assert(middle + child_adds(id, on@, nn@, 0) =~= middle);
    while j < nn.children.len()
        invariant
            j <= nn.children@.len(),
            mutation_models(out@) == middle + child_adds(id, on@, nn@, j as int),
        decreases nn.children.len() - j,
    {
        let c = nn.children[j];
        let ghost rest = child_adds(id, on@, nn@, j as int);
        if !has_id(&on.children, c) {
            emit(out, Mutation::AppendChild { parent: id, child: c });
            assert(mutation_models(out@) =~= middle + rest.push(
                MutationModel::AppendChild { parent: id, child: c },
            ));
        }
        j += 1;
    }
}

fn emit_content(id: NodeId, on: &Node, nn: &Node, out: &mut Vec<Mutation>)
    ensures
        mutation_models(final(out)@) == mutation_models(old(out)@) + content_delta(id, on@, nn@),
{
    let ghost start = mutation_models(out@);
    emit_props(id, on, nn, out);
    emit_callbacks(id, on, nn, out);
    emit_bindings(id, on, nn, out);
    emit_drops(id, on, nn, out);
    assert(mutation_models(out@) =~= start + content_delta(id, on@, nn@));
}

/// The mutations that turn `old` into `new`, matching nodes by id: creations in ascending order,
/// then the content of every node of `new` and what it loses, then the children that it gains, then
/// the root, then removals in ascending order.
pub fn diff(old_doc: &Document, new_doc: &Document) -> (r: Vec<Mutation>)
    ensures
        mutation_models(r@) == diff_model(old_doc@.tree, new_doc@.tree),
{
    let ghost old = old_doc@.tree;
    let ghost new = new_doc@.tree;
    let mut out: Vec<Mutation> = Vec::new();
    let new_ids = new_doc.ids();
    let mut i: usize = 0;
    assert(mutation_models(out@) =~= creations(old, new, 0));
    while i < new_ids.len()
        invariant
            old == old_doc@.tree,
            new == new_doc@.tree,
            new_ids@ == sorted_ids(new.nodes.dom()),
            new_ids@.to_set() == new.nodes.dom(),
            i <= new_ids@.len(),
            mutation_models(out@) == creations(old, new, i as int),
        decreases new_ids.len() - i,
    {
        let id = new_ids[i];
        assert(new_ids@.to_set().contains(id));
        if old_doc.get(id).is_none() {
            let nn = new_doc.get(id).unwrap();
            emit(&mut out, Mutation::CreateNode { id, kind: nn.kind.clone() });
        }
        i += 1;
    }
    let ghost created = mutation_models(out@);
    let mut j: usize = 0;
    assert(created + deltas(old, new, 0) =~= created);
    while j < new_ids.len()
        invariant
            old == old_doc@.tree,
            new == new_doc@.tree,
            new_ids@ == sorted_ids(new.nodes.dom()),
            new_ids@.to_set() == new.nodes.dom(),
            j <= new_ids@.len(),
            mutation_models(out@) == created + deltas(old, new, j as int),
        decreases new_ids.len() - j,
    {
        let id = new_ids[j];
        assert(new_ids@.to_set().contains(id));
        let nn = new_doc.get(id).unwrap();
        let ghost so_far = deltas(old, new, j as int);
        match old_doc.get(id) {
            Some(on) => {
                emit_content(id, on, nn, &mut out);
            },
            None => {
                let empty = Node::new(String::new());
                emit_content(id, &empty, nn, &mut out);
            },
        }
        assert(mutation_models(out@) =~= created + (so_far + content_delta(
            id,
            baseline(old, id),
            new.nodes[id],
        )));
        j += 1;
    }
    let ghost settled = mutation_models(out@);
    let mut l: usize = 0;
    assert(settled + adds(old, new, 0) =~= settled);
    while l < new_ids.len()
        invariant
            old == old_doc@.tree,
            new == new_doc@.tree,
            new_ids@ == sorted_ids(new.nodes.dom()),
            new_ids@.to_set() == new.nodes.dom(),
            l <= new_ids@.len(),
            mutation_models(out@) == settled + adds(old, new, l as int),
        decreases new_ids.len() - l,
    {
        let id = new_ids[l];
        assert(new_ids@.to_set().contains(id));
        let nn = new_doc.get(id).unwrap();
        let ghost so_far = adds(old, new, l as int);
        match old_doc.get(id) {
            Some(on) => {
                emit_adds(id, on, nn, &mut out);
            },
            None => {
                let empty = Node::new(String::new());
                emit_adds(id, &empty, nn, &mut out);
            },
        }
        assert(mutation_models(out@) =~= settled + (so_far + child_adds(
            id,
            baseline(old, id),
            new.nodes[id],
            new.nodes[id].children.len() as int,
        )));
        l += 1;
    }
    let ghost edited = mutation_models(out@);
    let same_root = match (old_doc.root(), new_doc.root()) {
        (Some(a), Some(b)) => a == b,
        (None, None) => true,
        _ => false,
    };
    if !same_root {
        match new_doc.root() {
            Some(r) => {
                emit(&mut out, Mutation::SetRoot { id: r });
            },
            None => {},
        }
    }
    assert(mutation_models(out@) =~= edited + root_delta(old, new));
    let ghost rooted = mutation_models(out@);
    let old_ids = old_doc.ids();
    let mut k: usize = 0;
    assert(rooted + removals(old, new, 0) =~= rooted);
    while k < old_ids.len()
        invariant
            old == old_doc@.tree,
            new == new_doc@.tree,
            old_ids@ == sorted_ids(old.nodes.dom()),
            k <= old_ids@.len(),
            mutation_models(out@) == rooted + removals(old, new, k as int),
        decreases old_ids.len() - k,
    {
        let id = old_ids[k];
        let ghost rest = removals(old, new, k as int);
        if new_doc.get(id).is_none() {
            emit(&mut out, Mutation::RemoveNode { id });
            assert(mutation_models(out@) =~= rooted + rest.push(MutationModel::RemoveNode { id }));
        }
        k += 1;
    }
    out
}

} // verus!
