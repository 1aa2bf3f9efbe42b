//! Resolution: from an authored document and the state to a document of literal properties only.
//! Bindings become properties, `If` nodes appear or vanish, `For` nodes repeat their children.
use vstd::prelude::*;

use crate::expr::{bound, eval_binding, Evaluated, Outcome};
use crate::float::{steady, unit, FloatOp, Unit};
use crate::ir::{empty_doc, DocModel, Document, Mutation, MutationModel, Tree};
use crate::lowering::{apply_system, create, created, sys, tidy};
use crate::lowering_law::orderly;
use crate::node::{Node, NodeId, NodeModel};
use crate::resolve_law::law_resolved_is_orderly;
use crate::store::Store;
use crate::text::{copy, in_order, same};
use crate::value::{Value, ValueModel};

verus! {

/// What a resolution depends on: the authored tree, the state and the floating-point unit.
pub struct World {
    pub tree: Tree,
    pub state: Map<Seq<char>, ValueModel>,
    pub fl: Unit,
}

/// Nodes made so far and the document that holds them; `None` when the resolution cannot go on.
pub type Made = Option<(Seq<NodeId>, DocModel)>;

/// The document with the first `n` properties of a node written to `id`.
pub open spec fn with_props(d: DocModel, id: NodeId, props: Map<Seq<char>, ValueModel>, n: int) -> DocModel
    decreases n,
{
    if n <= 0 {
        d
    } else {
        let k = in_order(props.dom())[n - 1];
        sys(with_props(d, id, props, n - 1), MutationModel::SetProp { id, key: k, value: props[k] })
    }
}

/// The document with the first `n` bindings of a node written to `id` as properties, where they
/// have a value.
pub open spec fn with_bound(w: World, d: DocModel, id: NodeId, bs: Map<Seq<char>, Seq<char>>, n: int) -> Option<
    DocModel,
>
    decreases n,
{
    if n <= 0 {
        Some(d)
    } else {
        let k = in_order(bs.dom())[n - 1];
        match with_bound(w, d, id, bs, n - 1) {
            None => None,
            Some(e) => match bound(bs[k], w.state, w.fl) {
                Outcome::Overflow => None,
                Outcome::Nothing => Some(e),
                Outcome::Is(v) => Some(sys(e, MutationModel::SetProp { id, key: k, value: v })),
            },
        }
    }
}

/// The document with the first `n` callbacks of a node written to `id`.
pub open spec fn with_callbacks(
    d: DocModel,
    id: NodeId,
    cs: Map<Seq<char>, crate::value::ActionModel>,
    n: int,
) -> DocModel
    decreases n,
{
    if n <= 0 {
        d
    } else {
        let k = in_order(cs.dom())[n - 1];
        sys(
            with_callbacks(d, id, cs, n - 1),
            MutationModel::SetCallback { id, event: k, action: cs[k] },
        )
    }
}

/// The document with the first `n` of the nodes put under `parent`.
pub open spec fn with_children(d: DocModel, parent: NodeId, ids: Seq<NodeId>, n: int) -> DocModel
    decreases n,
{
    if n <= 0 {
        d
    } else {
        sys(
            with_children(d, parent, ids, n - 1),
            MutationModel::AppendChild { parent, child: ids[n - 1] },
        )
    }
}

/// The document with an item and its place written to the first `n` of the nodes.
pub open spec fn with_item(d: DocModel, ids: Seq<NodeId>, item: ValueModel, place: i64, n: int) -> DocModel
    decreases n,
{
    if n <= 0 {
        d
    } else {
        let e = sys(
            with_item(d, ids, item, place, n - 1),
            MutationModel::SetProp { id: ids[n - 1], key: "item"@, value: item },
        );
        sys(e, MutationModel::SetProp { id: ids[n - 1], key: "index"@, value: ValueModel::Int(place) })
    }
}

/// What the binding under `key` comes to; nothing where there is none.
pub open spec fn bound_at(w: World, node: NodeModel, key: Seq<char>) -> Outcome {
    if node.bindings.dom().contains(key) {
        bound(node.bindings[key], w.state, w.fl)
    } else {
        Outcome::Nothing
    }
}

/// The nodes that an authored node expands to, at most `n` levels deep: none where it is absent,
/// a false `If` or an empty `For`; its children in place of a true `If`; copies of them in place
/// of a `For`; one node otherwise.
pub open spec fn emitted(w: World, id: NodeId, n: nat, d: DocModel) -> Made
    decreases n, 0int, 0int,
{
    if !w.tree.nodes.dom().contains(id) {
        Some((Seq::empty(), d))
    } else if n == 0 {
        None
    } else {
        let node = w.tree.nodes[id];
        let m = (n - 1) as nat;
        if node.kind == "If"@ {
            match bound_at(w, node, "cond"@) {
                Outcome::Overflow => None,
                Outcome::Is(ValueModel::Bool(true)) => spliced(w, node.children, 0, m, d, Seq::empty()),
                _ => Some((Seq::empty(), d)),
            }
        } else if node.kind == "For"@ {
            match bound_at(w, node, "items"@) {
                Outcome::Overflow => None,
                Outcome::Is(ValueModel::List(items)) => listed(
                    w,
                    node.children,
                    items,
                    0,
                    m,
                    d,
                    Seq::empty(),
                ),
                Outcome::Is(ValueModel::Int(k)) => if k > 0 {
                    repeated(w, node.children, k as usize as nat, m, d, Seq::empty())
                } else {
                    Some((Seq::empty(), d))
                },
                _ => Some((Seq::empty(), d)),
            }
        } else if d.next_id == u64::MAX {
            None
        } else {
            let new_id = NodeId(d.next_id);
            let d1 = with_props(
                created(d, node.kind),
                new_id,
                node.props,
                in_order(node.props.dom()).len() as int,
            );
            match with_bound(w, d1, new_id, node.bindings, in_order(node.bindings.dom()).len() as int) {
                None => None,
                Some(d2) => {
                    let d3 = with_callbacks(
                        d2,
                        new_id,
                        node.callbacks,
                        in_order(node.callbacks.dom()).len() as int,
                    );
                    match appended(w, node.children, 0, new_id, m, d3) {
                        None => None,
                        Some(d4) => Some((seq![new_id], d4)),
                    }
                },
            }
        }
    }
}

/// The nodes that the children from `i` on expand to, behind those made so far.
pub open spec fn spliced(w: World, kids: Seq<NodeId>, i: int, n: nat, d: DocModel, acc: Seq<NodeId>) -> Made
    decreases n, 1int, kids.len() - i,
{
    if i < 0 || i >= kids.len() {
        Some((acc, d))
    } else {
        match emitted(w, kids[i], n, d) {
            None => None,
            Some((ids, e)) => spliced(w, kids, i + 1, n, e, acc + ids),
        }
    }
}

/// The children expanded `k` times over.
pub open spec fn repeated(w: World, kids: Seq<NodeId>, k: nat, n: nat, d: DocModel, acc: Seq<NodeId>) -> Made
    decreases n, 2int, k,
{
    if k == 0 {
        Some((acc, d))
    } else {
        match spliced(w, kids, 0, n, d, acc) {
            None => None,
            Some((ids, e)) => repeated(w, kids, (k - 1) as nat, n, e, ids),
        }
    }
}

/// The children from `j` on expanded for one item, each with the item and its place on it.
pub open spec fn itemized(
    w: World,
    kids: Seq<NodeId>,
    j: int,
    item: ValueModel,
    place: i64,
    n: nat,
    d: DocModel,
    acc: Seq<NodeId>,
) -> Made
    decreases n, 1int, kids.len() - j,
{
    if j < 0 || j >= kids.len() {
        Some((acc, d))
    } else {
        match emitted(w, kids[j], n, d) {
            None => None,
            Some((ids, e)) => itemized(
                w,
                kids,
                j + 1,
                item,
                place,
                n,
                with_item(e, ids, item, place, ids.len() as int),
                acc + ids,
            ),
        }
    }
}

/// The children expanded once for each item from `i` on.
pub open spec fn listed(
    w: World,
    kids: Seq<NodeId>,
    items: Seq<ValueModel>,
    i: int,
    n: nat,
    d: DocModel,
    acc: Seq<NodeId>,
) -> Made
    decreases n, 2int, items.len() - i,
{
    if i < 0 || i >= items.len() {
        Some((acc, d))
    } else {
        match itemized(w, kids, 0, items[i], i as i64, n, d, acc) {
            None => None,
            Some((ids, e)) => listed(w, kids, items, i + 1, n, e, ids),
        }
    }
}

/// The children from `i` on expanded and put under `parent`.
pub open spec fn appended(w: World, kids: Seq<NodeId>, i: int, parent: NodeId, n: nat, d: DocModel) -> Option<
    DocModel,
>
    decreases n, 1int, kids.len() - i,
{
    if i < 0 || i >= kids.len() {
        Some(d)
    } else {
        match emitted(w, kids[i], n, d) {
            None => None,
            Some((ids, e)) => appended(
                w,
                kids,
                i + 1,
                parent,
                n,
                with_children(e, parent, ids, ids.len() as int),
            ),
        }
    }
}

/// The document that an authored tree resolves to, at most `n` levels deep. The first node that
/// its root expands to is the root; the others are put under it.
pub open spec fn resolved_at(w: World, n: nat) -> Option<DocModel> {
    match w.tree.root {
        None => Some(empty_doc()),
        Some(root) => match emitted(w, root, n, empty_doc()) {
            None => None,
            Some((ids, d)) => if ids.len() == 0 {
                Some(d)
            } else {
                Some(
                    with_children(
                        sys(d, MutationModel::SetRoot { id: ids[0] }),
                        ids[0],
                        ids.skip(1),
                        ids.len() - 1,
                    ),
                )
            },
        },
    }
}

fn set_props(out: &mut Document, id: NodeId, node: &Node)
    requires
        tidy(old(out)@),
    ensures
        final(out)@ == with_props(
            old(out)@,
            id,
            node@.props,
            in_order(node@.props.dom()).len() as int,
        ),
        tidy(final(out)@),
{
    let n: usize = node.props.len();
    let mut i: usize = 0;
    assert(node@.props.dom() =~= node.props@.dom());
    while i < n
        invariant
            tidy(out@),
            i <= n,
            n == in_order(node.props@.dom()).len(),
            node@.props.dom() == node.props@.dom(),
            out@ == with_props(old(out)@, id, node@.props, i as int),
        decreases n - i,
    {
        let (k, v) = node.props.entry(i);
        apply_system(out, Mutation::SetProp { id, key: copy(k.as_str()), value: v.clone() });
        i += 1;
    }
}

fn set_bound<F: Fn(&FloatOp) -> Option<u64>>(
    out: &mut Document,
    id: NodeId,
    node: &Node,
    store: &Store,
    fl: &F,
    Ghost(w): Ghost<World>,
) -> (r: bool)
    requires
        steady(*fl),
        tidy(old(out)@),
        w.state == store@,
        w.fl == unit(*fl),
    ensures
        tidy(final(out)@),
        ({
            let goal = with_bound(
                w,
                old(out)@,
                id,
                node@.bindings,
                in_order(node@.bindings.dom()).len() as int,
            );
            if r {
                goal == Some(final(out)@)
            } else {
                goal is None
            }
        }),
{
    let n: usize = node.bindings.len();
    let mut i: usize = 0;
    let ghost start = out@;
    assert(node@.bindings.dom() =~= node.bindings@.dom());
    while i < n
        invariant
            steady(*fl),
            w.state == store@,
            w.fl == unit(*fl),
            tidy(out@),
            i <= n,
            n == in_order(node.bindings@.dom()).len(),
            node@.bindings.dom() == node.bindings@.dom(),
            start == old(out)@,
            with_bound(w, start, id, node@.bindings, i as int) == Some(out@),
        decreases n - i,
    {
        let (k, b) = node.bindings.entry(i);
        match eval_binding(b.expr.as_str(), store, fl) {
            Evaluated::Overflow => {
                proof {
                    lemma_bound_fails(w, start, id, node@.bindings, i + 1, n as int);
                }
                return false;
            },
            Evaluated::Nothing => {},
            Evaluated::Is(v) => {
                apply_system(out, Mutation::SetProp { id, key: copy(k.as_str()), value: v });
            },
        }
        i += 1;
    }
    true
}

proof fn lemma_bound_fails(w: World, d: DocModel, id: NodeId, bs: Map<Seq<char>, Seq<char>>, i: int, n: int)
    requires
        0 <= i <= n,
        with_bound(w, d, id, bs, i) is None,
    ensures
        with_bound(w, d, id, bs, n) is None,
    decreases n - i,
{
    if i < n {
        lemma_bound_fails(w, d, id, bs, i + 1, n);
    }
}

fn set_callbacks(out: &mut Document, id: NodeId, node: &Node)
    requires
        tidy(old(out)@),
    ensures
        final(out)@ == with_callbacks(
            old(out)@,
            id,
            node@.callbacks,
            in_order(node@.callbacks.dom()).len() as int,
        ),
        tidy(final(out)@),
{
    let n: usize = node.callbacks.len();
    let mut i: usize = 0;
    assert(node@.callbacks.dom() =~= node.callbacks@.dom());
    while i < n
        invariant
            tidy(out@),
            i <= n,
            n == in_order(node.callbacks@.dom()).len(),
            node@.callbacks.dom() == node.callbacks@.dom(),
            out@ == with_callbacks(old(out)@, id, node@.callbacks, i as int),
        decreases n - i,
    {
        let (k, a) = node.callbacks.entry(i);
        apply_system(out, Mutation::SetCallback { id, event: copy(k.as_str()), action: a.clone() });
        i += 1;
    }
}

fn append_all(out: &mut Document, parent: NodeId, ids: &Vec<NodeId>)
    requires
        tidy(old(out)@),
    ensures
        final(out)@ == with_children(old(out)@, parent, ids@, ids@.len() as int),
        tidy(final(out)@),
{
    let mut i: usize = 0;
    while i < ids.len()
        invariant
            tidy(out@),
            i <= ids@.len(),
            out@ == with_children(old(out)@, parent, ids@, i as int),
        decreases ids.len() - i,
    {
        apply_system(out, Mutation::AppendChild { parent, child: ids[i] });
        i += 1;
    }
}

fn mark_items(out: &mut Document, ids: &Vec<NodeId>, item: &Value, place: i64)
    requires
        tidy(old(out)@),
    ensures
        final(out)@ == with_item(old(out)@, ids@, item@, place, ids@.len() as int),
        tidy(final(out)@),
{
    let mut i: usize = 0;
    while i < ids.len()
        invariant
            tidy(out@),
            i <= ids@.len(),
            out@ == with_item(old(out)@, ids@, item@, place, i as int),
        decreases ids.len() - i,
    {
        apply_system(out, Mutation::SetProp { id: ids[i], key: copy("item"), value: item.clone() });
        apply_system(
            out,
            Mutation::SetProp { id: ids[i], key: copy("index"), value: Value::Int(place) },
        );
        i += 1;
    }
}

fn eval_at<F: Fn(&FloatOp) -> Option<u64>>(
    node: &Node,
    key: &str,
    store: &Store,
    fl: &F,
    Ghost(w): Ghost<World>,
) -> (r: Evaluated)
    requires
        steady(*fl),
        w.state == store@,
        w.fl == unit(*fl),
    ensures
        r@ == bound_at(w, node@, key@),
{
    match node.bindings.get(key) {
        Some(b) => eval_binding(b.expr.as_str(), store, fl),
        None => Evaluated::Nothing,
    }
}

spec fn made(r: Option<Vec<NodeId>>, d: DocModel, goal: Made) -> bool {
    match r {
        Some(ids) => goal == Some((ids@, d)),
        None => goal is None,
    }
}

fn extend(acc: &mut Vec<NodeId>, ids: &Vec<NodeId>)
    ensures
        final(acc)@ == old(acc)@ + ids@,
{
    let mut i: usize = 0;
    assert(acc@ =~= acc@ + ids@.take(0));
    while i < ids.len()
        invariant
            i <= ids@.len(),
            acc@ == old(acc)@ + ids@.take(i as int),
        decreases ids.len() - i,
    {
        acc.push(ids[i]);
        i += 1;
        assert(acc@ =~= old(acc)@ + ids@.take(i as int));
    }
    assert(ids@.take(i as int) =~= ids@);
}

/// Resolves one authored node into `out`, at most `depth` levels deep.
fn resolve_into<F: Fn(&FloatOp) -> Option<u64>>(
    src: &Document,
    id: NodeId,
    store: &Store,
    out: &mut Document,
    fl: &F,
    depth: u64,
    Ghost(w): Ghost<World>,
) -> (r: Option<Vec<NodeId>>)
    requires
        steady(*fl),
        tidy(old(out)@),
        w.tree == src@.tree,
        w.state == store@,
        w.fl == unit(*fl),
    ensures
        tidy(final(out)@),
        made(r, final(out)@, emitted(w, id, depth as nat, old(out)@)),
    decreases depth, 0int, 0int,
{
    let node = match src.get(id) {
        Some(node) => node,
        None => {
            return Some(Vec::new());
        },
    };
    if depth == 0 {
        return None;
    }
    if same(node.kind.as_str(), "If") {
        match eval_at(node, "cond", store, fl, Ghost(w)) {
            Evaluated::Overflow => None,
            Evaluated::Is(Value::Bool(true)) => {
                let none: Vec<NodeId> = Vec::new();
                assert(none@ =~= Seq::empty());
                splice(src, &node.children, none, store, out, fl, depth - 1, Ghost(w))
            },
            _ => Some(Vec::new()),
        }
    } else if same(node.kind.as_str(), "For") {
        match eval_at(node, "items", store, fl, Ghost(w)) {
            Evaluated::Overflow => None,
            Evaluated::Is(Value::List(items)) => {
                assert(match Value::List(items)@ {
                    ValueModel::List(s) => s =~= Seq::new(items@.len(), |i: int| items@[i]@),
                    _ => true,
                });
                list(src, &node.children, &items, store, out, fl, depth - 1, Ghost(w))
            },
            Evaluated::Is(Value::Int(k)) => {
                if k > 0 {
                    repeat(src, &node.children, k as usize, store, out, fl, depth - 1, Ghost(w))
                } else {
                    Some(Vec::new())
                }
            },
            _ => Some(Vec::new()),
        }
    } else {
        match emit_node(src, node, store, out, fl, depth, Ghost(w), Ghost(id)) {
            Some(new_id) => {
                let mut ids: Vec<NodeId> = Vec::new();
                ids.push(new_id);
                assert(ids@ =~= seq![new_id]);
                Some(ids)
            },
            None => None,
        }
    }
}

fn emit_node<F: Fn(&FloatOp) -> Option<u64>>(
    src: &Document,
    node: &Node,
    store: &Store,
    out: &mut Document,
    fl: &F,
    depth: u64,
    Ghost(w): Ghost<World>,
    Ghost(id): Ghost<NodeId>,
) -> (r: Option<NodeId>)
    requires
        steady(*fl),
        tidy(old(out)@),
        w.tree == src@.tree,
        w.state == store@,
        w.fl == unit(*fl),
        depth > 0,
        w.tree.nodes.dom().contains(id),
        w.tree.nodes[id] == node@,
        node@.kind != "If"@,
        node@.kind != "For"@,
    ensures
        tidy(final(out)@),
        match r {
            Some(x) => emitted(w, id, depth as nat, old(out)@) == Some((seq![x], final(out)@)),
            None => emitted(w, id, depth as nat, old(out)@) is None,
        },
    decreases depth - 1, 4int, 0int,
{
    if out.next_id() == 0xFFFF_FFFF_FFFF_FFFF {
        return None;
    }
    let new_id = create(out, copy(node.kind.as_str()));
    set_props(out, new_id, node);
    if !set_bound(out, new_id, node, store, fl, Ghost(w)) {
        return None;
    }
    set_callbacks(out, new_id, node);
    if append_children(src, &node.children, new_id, store, out, fl, depth - 1, Ghost(w)) {
        Some(new_id)
    } else {
        None
    }
}

fn splice<F: Fn(&FloatOp) -> Option<u64>>(
    src: &Document,
    kids: &Vec<NodeId>,
    from: Vec<NodeId>,
    store: &Store,
    out: &mut Document,
    fl: &F,
    depth: u64,
    Ghost(w): Ghost<World>,
) -> (r: Option<Vec<NodeId>>)
    requires
        steady(*fl),
        tidy(old(out)@),
        w.tree == src@.tree,
        w.state == store@,
        w.fl == unit(*fl),
    ensures
        tidy(final(out)@),
        made(r, final(out)@, spliced(w, kids@, 0, depth as nat, old(out)@, from@)),
    decreases depth, 1int, 0int,
{
    let ghost goal = spliced(w, kids@, 0, depth as nat, out@, from@);
    let mut acc = from;
    let mut i: usize = 0;
    while i < kids.len()
        invariant
            steady(*fl),
            tidy(out@),
            w.tree == src@.tree,
            w.state == store@,
            w.fl == unit(*fl),
            i <= kids@.len(),
            spliced(w, kids@, i as int, depth as nat, out@, acc@) == goal,
            goal == spliced(w, kids@, 0, depth as nat, old(out)@, from@),
        decreases kids.len() - i,
    {
        match resolve_into(src, kids[i], store, out, fl, depth, Ghost(w)) {
            Some(ids) => {
                extend(&mut acc, &ids);
            },
            None => {
                return None;
            },
        }
        i += 1;
    }
    Some(acc)
}

fn repeat<F: Fn(&FloatOp) -> Option<u64>>(
    src: &Document,
    kids: &Vec<NodeId>,
    times: usize,
    store: &Store,
    out: &mut Document,
    fl: &F,
    depth: u64,
    Ghost(w): Ghost<World>,
) -> (r: Option<Vec<NodeId>>)
    requires
        steady(*fl),
        tidy(old(out)@),
        w.tree == src@.tree,
        w.state == store@,
        w.fl == unit(*fl),
    ensures
        tidy(final(out)@),
        made(r, final(out)@, repeated(w, kids@, times as nat, depth as nat, old(out)@, Seq::empty())),
    decreases depth, 2int, 0int,
{
    let ghost goal = repeated(w, kids@, times as nat, depth as nat, out@, Seq::empty());
    let mut acc: Vec<NodeId> = Vec::new();
    let mut left: usize = times;
    assert(acc@ =~= Seq::empty());
    while left > 0
        invariant
            steady(*fl),
            tidy(out@),
            w.tree == src@.tree,
            w.state == store@,
            w.fl == unit(*fl),
            repeated(w, kids@, left as nat, depth as nat, out@, acc@) == goal,
            goal == repeated(w, kids@, times as nat, depth as nat, old(out)@, Seq::empty()),
        decreases left,
    {
        match splice(src, kids, acc, store, out, fl, depth, Ghost(w)) {
            Some(ids) => {
                acc = ids;
            },
            None => {
                return None;
            },
        }
        left -= 1;
    }
    Some(acc)
}

fn itemize<F: Fn(&FloatOp) -> Option<u64>>(
    src: &Document,
    kids: &Vec<NodeId>,
    item: &Value,
    place: i64,
    from: Vec<NodeId>,
    store: &Store,
    out: &mut Document,
    fl: &F,
    depth: u64,
    Ghost(w): Ghost<World>,
) -> (r: Option<Vec<NodeId>>)
    requires
        steady(*fl),
        tidy(old(out)@),
        w.tree == src@.tree,
        w.state == store@,
        w.fl == unit(*fl),
    ensures
        tidy(final(out)@),
        made(r, final(out)@, itemized(w, kids@, 0, item@, place, depth as nat, old(out)@, from@)),
    decreases depth, 1int, 0int,
{
    let ghost goal = itemized(w, kids@, 0, item@, place, depth as nat, out@, from@);
    let mut acc = from;
    let mut j: usize = 0;
    while j < kids.len()
        invariant
            steady(*fl),
            tidy(out@),
            w.tree == src@.tree,
            w.state == store@,
            w.fl == unit(*fl),
            j <= kids@.len(),
            itemized(w, kids@, j as int, item@, place, depth as nat, out@, acc@) == goal,
            goal == itemized(w, kids@, 0, item@, place, depth as nat, old(out)@, from@),
        decreases kids.len() - j,
    {
        match resolve_into(src, kids[j], store, out, fl, depth, Ghost(w)) {
            Some(ids) => {
                mark_items(out, &ids, item, place);
                extend(&mut acc, &ids);
            },
            None => {
                return None;
            },
        }
        j += 1;
    }
    Some(acc)
}

fn list<F: Fn(&FloatOp) -> Option<u64>>(
    src: &Document,
    kids: &Vec<NodeId>,
    items: &Vec<Value>,
    store: &Store,
    out: &mut Document,
    fl: &F,
    depth: u64,
    Ghost(w): Ghost<World>,
) -> (r: Option<Vec<NodeId>>)
    requires
        steady(*fl),
        tidy(old(out)@),
        w.tree == src@.tree,
        w.state == store@,
        w.fl == unit(*fl),
    ensures
        tidy(final(out)@),
        ({
            let all = Seq::new(items@.len(), |i: int| items@[i]@);
            made(r, final(out)@, listed(w, kids@, all, 0, depth as nat, old(out)@, Seq::empty()))
        }),
    decreases depth, 2int, 0int,
{
    let ghost all = Seq::new(items@.len(), |i: int| items@[i]@);
    let ghost goal = listed(w, kids@, all, 0, depth as nat, out@, Seq::empty());
    let mut acc: Vec<NodeId> = Vec::new();
    let mut i: usize = 0;
    assert(acc@ =~= Seq::empty());
    while i < items.len()
        invariant
            steady(*fl),
            tidy(out@),
            w.tree == src@.tree,
            w.state == store@,
            w.fl == unit(*fl),
            i <= items@.len(),
            all == Seq::new(items@.len(), |i: int| items@[i]@),
            listed(w, kids@, all, i as int, depth as nat, out@, acc@) == goal,
            goal == listed(w, kids@, all, 0, depth as nat, old(out)@, Seq::empty()),
        decreases items.len() - i,
    {
        match itemize(src, kids, &items[i], i as i64, acc, store, out, fl, depth, Ghost(w)) {
            Some(ids) => {
                acc = ids;
            },
            None => {
                return None;
            },
        }
        i += 1;
    }
    Some(acc)
}

fn append_children<F: Fn(&FloatOp) -> Option<u64>>(
    src: &Document,
    kids: &Vec<NodeId>,
    parent: NodeId,
    store: &Store,
    out: &mut Document,
    fl: &F,
    depth: u64,
    Ghost(w): Ghost<World>,
) -> (r: bool)
    requires
        steady(*fl),
        tidy(old(out)@),
        w.tree == src@.tree,
        w.state == store@,
        w.fl == unit(*fl),
    ensures
        tidy(final(out)@),
        ({
            let goal = appended(w, kids@, 0, parent, depth as nat, old(out)@);
            if r {
                goal == Some(final(out)@)
            } else {
                goal is None
            }
        }),
    decreases depth, 1int, 0int,
{
    let ghost goal = appended(w, kids@, 0, parent, depth as nat, out@);
    let mut i: usize = 0;
    while i < kids.len()
        invariant
            steady(*fl),
            tidy(out@),
            w.tree == src@.tree,
            w.state == store@,
            w.fl == unit(*fl),
            i <= kids@.len(),
            appended(w, kids@, i as int, parent, depth as nat, out@) == goal,
            goal == appended(w, kids@, 0, parent, depth as nat, old(out)@),
        decreases kids.len() - i,
    {
        match resolve_into(src, kids[i], store, out, fl, depth, Ghost(w)) {
            Some(ids) => {
                append_all(out, parent, &ids);
            },
            None => {
                return false;
            },
        }
        i += 1;
    }
    true
}

/// What a document and a store resolve against.
pub open spec fn world(tree: Tree, state: Map<Seq<char>, ValueModel>, fl: Unit) -> World {
    World { tree, state, fl }
}

/// Resolves a document at most `depth` levels deep.
fn attempt<F: Fn(&FloatOp) -> Option<u64>>(src: &Document, store: &Store, fl: &F, depth: u64) -> (r:
    Option<Document>)
    requires
        steady(*fl),
    ensures
        match r {
            Some(d) => resolved_at(world(src@.tree, store@, unit(*fl)), depth as nat) == Some(d@),
            None => resolved_at(world(src@.tree, store@, unit(*fl)), depth as nat) is None,
        },
{
    let ghost w = world(src@.tree, store@, unit(*fl));
    let mut out = Document::new();
    match src.root() {
        None => Some(out),
        Some(root) => match resolve_into(src, root, store, &mut out, fl, depth, Ghost(w)) {
            None => None,
            Some(ids) => {
                if ids.len() > 0 {
                    let first = ids[0];
                    let mut extra: Vec<NodeId> = Vec::new();
                    let mut i: usize = 1;
                    while i < ids.len()
                        invariant
                            1 <= i <= ids@.len(),
                            extra@ == ids@.subrange(1, i as int),
                        decreases ids.len() - i,
                    {
                        extra.push(ids[i]);
                        i += 1;
                        assert(extra@ =~= ids@.subrange(1, i as int));
                    }
                    assert(extra@ =~= ids@.skip(1));
                    apply_system(&mut out, Mutation::SetRoot { id: first });
                    append_all(&mut out, first, &extra);
                }
                Some(out)
            },
        },
    }
}

proof fn lemma_emitted_deeper(w: World, id: NodeId, n: nat, d: DocModel)
    requires
        emitted(w, id, n, d) is Some,
    ensures
        emitted(w, id, n + 1, d) == emitted(w, id, n, d),
    decreases n, 0int, 0int,
{
    if w.tree.nodes.dom().contains(id) {
        let node = w.tree.nodes[id];
        let m = (n - 1) as nat;
        assert((n + 1 - 1) as nat == m + 1);
        if node.kind == "If"@ {
            match bound_at(w, node, "cond"@) {
                Outcome::Is(ValueModel::Bool(true)) => {
                    lemma_spliced_deeper(w, node.children, 0, m, d, Seq::empty());
                },
                _ => {},
            }
        } else if node.kind == "For"@ {
            match bound_at(w, node, "items"@) {
                Outcome::Is(ValueModel::List(items)) => {
                    lemma_listed_deeper(w, node.children, items, 0, m, d, Seq::empty());
                },
                Outcome::Is(ValueModel::Int(k)) => {
                    if k > 0 {
                        lemma_repeated_deeper(w, node.children, k as usize as nat, m, d, Seq::empty());
                    }
                },
                _ => {},
            }
        } else {
            let new_id = NodeId(d.next_id);
            let d1 = with_props(
                created(d, node.kind),
                new_id,
                node.props,
                in_order(node.props.dom()).len() as int,
            );
            let d2 = with_bound(
                w,
                d1,
                new_id,
                node.bindings,
                in_order(node.bindings.dom()).len() as int,
            )->0;
            let d3 = with_callbacks(
                d2,
                new_id,
                node.callbacks,
                in_order(node.callbacks.dom()).len() as int,
            );
            lemma_appended_deeper(w, node.children, 0, new_id, m, d3);
        }
    }
}

proof fn lemma_spliced_deeper(w: World, kids: Seq<NodeId>, i: int, n: nat, d: DocModel, acc: Seq<NodeId>)
    requires
        spliced(w, kids, i, n, d, acc) is Some,
    ensures
        spliced(w, kids, i, n + 1, d, acc) == spliced(w, kids, i, n, d, acc),
    decreases n, 1int, kids.len() - i,
{
    if 0 <= i < kids.len() {
        lemma_emitted_deeper(w, kids[i], n, d);
        let (ids, e) = emitted(w, kids[i], n, d)->0;
        lemma_spliced_deeper(w, kids, i + 1, n, e, acc + ids);
    }
}

proof fn lemma_repeated_deeper(w: World, kids: Seq<NodeId>, k: nat, n: nat, d: DocModel, acc: Seq<NodeId>)
    requires
        repeated(w, kids, k, n, d, acc) is Some,
    ensures
        repeated(w, kids, k, n + 1, d, acc) == repeated(w, kids, k, n, d, acc),
    decreases n, 2int, k,
{
    if k > 0 {
        lemma_spliced_deeper(w, kids, 0, n, d, acc);
        let (ids, e) = spliced(w, kids, 0, n, d, acc)->0;
        lemma_repeated_deeper(w, kids, (k - 1) as nat, n, e, ids);
    }
}

proof fn lemma_itemized_deeper(
    w: World,
    kids: Seq<NodeId>,
    j: int,
    item: ValueModel,
    place: i64,
    n: nat,
    d: DocModel,
    acc: Seq<NodeId>,
)
    requires
        itemized(w, kids, j, item, place, n, d, acc) is Some,
    ensures
        itemized(w, kids, j, item, place, n + 1, d, acc) == itemized(w, kids, j, item, place, n, d, acc),
    decreases n, 1int, kids.len() - j,
{
    if 0 <= j < kids.len() {
        lemma_emitted_deeper(w, kids[j], n, d);
        let (ids, e) = emitted(w, kids[j], n, d)->0;
        lemma_itemized_deeper(
            w,
            kids,
            j + 1,
            item,
            place,
            n,
            with_item(e, ids, item, place, ids.len() as int),
            acc + ids,
        );
    }
}

proof fn lemma_listed_deeper(
    w: World,
    kids: Seq<NodeId>,
    items: Seq<ValueModel>,
    i: int,
    n: nat,
    d: DocModel,
    acc: Seq<NodeId>,
)
    requires
        listed(w, kids, items, i, n, d, acc) is Some,
    ensures
        listed(w, kids, items, i, n + 1, d, acc) == listed(w, kids, items, i, n, d, acc),
    decreases n, 2int, items.len() - i,
{
    if 0 <= i < items.len() {
        lemma_itemized_deeper(w, kids, 0, items[i], i as i64, n, d, acc);
        let (ids, e) = itemized(w, kids, 0, items[i], i as i64, n, d, acc)->0;
        lemma_listed_deeper(w, kids, items, i + 1, n, e, ids);
    }
}

proof fn lemma_appended_deeper(w: World, kids: Seq<NodeId>, i: int, parent: NodeId, n: nat, d: DocModel)
    requires
        appended(w, kids, i, parent, n, d) is Some,
    ensures
        appended(w, kids, i, parent, n + 1, d) == appended(w, kids, i, parent, n, d),
    decreases n, 1int, kids.len() - i,
{
    if 0 <= i < kids.len() {
        lemma_emitted_deeper(w, kids[i], n, d);
        let (ids, e) = emitted(w, kids[i], n, d)->0;
        lemma_appended_deeper(
            w,
            kids,
            i + 1,
            parent,
            n,
            with_children(e, parent, ids, ids.len() as int),
        );
    }
}

/// Where a resolution ends within some depth, a greater depth changes nothing.
pub proof fn law_depth_is_only_a_limit(w: World, n: nat, m: nat)
    requires
        resolved_at(w, n) is Some,
        n <= m,
    ensures
        resolved_at(w, m) == resolved_at(w, n),
    decreases m - n,
{
    if n < m {
        if w.tree.root is Some {
            lemma_emitted_deeper(w, w.tree.root->0, n, empty_doc());
        }
        law_depth_is_only_a_limit(w, n + 1, m);
    }
}

/// The resolution comes to an end: no chain of children leads back to its start, no integer in a
/// binding leaves its range, and the ids suffice for the nodes.
pub open spec fn resolvable(w: World) -> bool {
    exists|n: u64| resolved_at(w, n as nat) is Some
}

/// The document that an authored tree resolves to.
pub open spec fn resolved(w: World) -> DocModel {
    resolved_at(w, (choose|n: u64| resolved_at(w, n as nat) is Some) as nat)->0
}

proof fn lemma_resolved(w: World, n: u64)
    requires
        resolved_at(w, n as nat) is Some,
    ensures
        resolvable(w),
        resolved_at(w, n as nat) == Some(resolved(w)),
{
    let m: u64 = choose|m: u64| resolved_at(w, m as nat) is Some;
    if n <= m {
        law_depth_is_only_a_limit(w, n as nat, m as nat);
    } else {
        law_depth_is_only_a_limit(w, m as nat, n as nat);
    }
}

/// Resolves a document against a store: bindings become properties, over a literal of the same
/// key; an `If` whose `cond` is true gives way to its children, any other `If` vanishes; a `For`
/// repeats its children as often as its `items` say.
pub fn resolve<F: Fn(&FloatOp) -> Option<u64>>(src: &Document, store: &Store, fl: &F) -> (r: Document)
    requires
        steady(*fl),
        resolvable(world(src@.tree, store@, unit(*fl))),
    ensures
        r@ == resolved(world(src@.tree, store@, unit(*fl))),
        orderly(r@),
{
    let ghost w = world(src@.tree, store@, unit(*fl));
    proof {
        law_resolved_is_orderly(w);
    }
    let ghost enough: u64 = choose|n: u64| resolved_at(w, n as nat) is Some;
    let mut depth: u64 = src.len() as u64;
    loop
        invariant
            steady(*fl),
            w == world(src@.tree, store@, unit(*fl)),
            resolved_at(w, enough as nat) is Some,
            orderly(resolved(w)),
        decreases (if depth < enough {
            enough - depth
        } else {
            0
        }),
    {
        match attempt(src, store, fl, depth) {
            Some(out) => {
                proof {
                    lemma_resolved(w, depth);
                }
                return out;
            },
            None => {
                proof {
                    if enough <= depth {
                        law_depth_is_only_a_limit(w, enough as nat, depth as nat);
                    }
                }
                depth = depth + 1;
            },
        }
    }
}

/// Resolves a document against a store where that takes at most `depth` levels; `None` where it
/// takes more, or does not come to an end.
pub fn resolve_within<F: Fn(&FloatOp) -> Option<u64>>(
    src: &Document,
    store: &Store,
    depth: u64,
    fl: &F,
) -> (r: Option<Document>)
    requires
        steady(*fl),
    ensures
        match r {
            Some(d) => resolved_at(world(src@.tree, store@, unit(*fl)), depth as nat) == Some(d@),
            None => resolved_at(world(src@.tree, store@, unit(*fl)), depth as nat) is None,
        },
{
    match attempt(src, store, fl, depth) {
        Some(_) => {
            proof {
                lemma_resolved(world(src@.tree, store@, unit(*fl)), depth);
            }
            Some(resolve(src, store, fl))
        },
        None => None,
    }
}

/// A document and the state it is shown in, with a mark of whether the last resolution is still
/// good.
pub struct Reactor {
    src: Document,
    store: Store,
    seen: Option<u64>,
}

impl Reactor {
    /// The authored document.
    pub closed spec fn source(&self) -> DocModel {
        self.src@
    }

    /// The state.
    pub closed spec fn state(&self) -> Store {
        self.store
    }

    /// How many writes the store had taken at the last resolution that is still good.
    pub closed spec fn last_seen(&self) -> Option<u64> {
        self.seen
    }

    /// The source was replaced or the state was written to since the last resolution.
    pub open spec fn stale(&self) -> bool {
        self.last_seen() != Some(self.state().ticks())
    }

    /// A reactor over a document and a store, with no resolution yet.
    pub fn new(src: Document, store: Store) -> (r: Reactor)
        ensures
            r.source() == src@,
            r.state() == store,
            r.stale(),
    {
        Reactor { src, store, seen: None }
    }

    /// The state.
    pub fn store(&self) -> (r: &Store)
        ensures
            *r == self.state(),
    {
        &self.store
    }

    /// The state, to be written to. A write makes the reactor stale.
    pub fn store_mut(&mut self) -> (r: &mut Store)
        ensures
            *r == old(self).state(),
            final(self).state() == *final(r),
            final(self).source() == old(self).source(),
            final(self).last_seen() == old(self).last_seen(),
    {
        &mut self.store
    }

    /// Puts another document in place of the source.
    pub fn set_source(&mut self, src: Document)
        ensures
            final(self).source() == src@,
            final(self).state() == old(self).state(),
            final(self).stale(),
    {
        self.src = src;
        self.seen = None;
    }

    /// `true` when the last resolution no longer shows the source and the state.
    pub fn is_dirty(&self) -> (r: bool)
        ensures
            r == self.stale(),
    {
        match self.seen {
            Some(t) => t != self.store.change_tick(),
            None => true,
        }
    }

    /// The source resolved against the state as it is.
    pub fn resolved<F: Fn(&FloatOp) -> Option<u64>>(&mut self, fl: &F) -> (r: Document)
        requires
            steady(*fl),
            resolvable(world(old(self).source().tree, old(self).state()@, unit(*fl))),
        ensures
            r@ == resolved(world(old(self).source().tree, old(self).state()@, unit(*fl))),
            orderly(r@),
            final(self).source() == old(self).source(),
            final(self).state() == old(self).state(),
            !final(self).stale(),
    {
        self.seen = Some(self.store.change_tick());
        resolve(&self.src, &self.store, fl)
    }

    /// The source resolved against the state as it is, where that takes at most `depth` levels.
    /// Where it takes more, the reactor stays as it was.
    pub fn resolved_within<F: Fn(&FloatOp) -> Option<u64>>(&mut self, depth: u64, fl: &F) -> (r: Option<
        Document,
    >)
        requires
            steady(*fl),
        ensures
            match r {
                Some(d) => {
                    &&& resolved_at(
                        world(old(self).source().tree, old(self).state()@, unit(*fl)),
                        depth as nat,
                    ) == Some(d@)
                    &&& final(self).source() == old(self).source()
                    &&& final(self).state() == old(self).state()
                    &&& !final(self).stale()
                },
                None => {
                    &&& resolved_at(
                        world(old(self).source().tree, old(self).state()@, unit(*fl)),
                        depth as nat,
                    ) is None
                    &&& *final(self) == *old(self)
                },
            },
    {
        match attempt(&self.src, &self.store, fl, depth) {
            Some(_) => {
                proof {
                    lemma_resolved(world(self.source().tree, self.state()@, unit(*fl)), depth);
                }
                Some(self.resolved(fl))
            },
            None => None,
        }
    }
}

} // verus!
