//! The live interface: a document, the state it shows, its layout, and what users and assistants
//! do to it. Every action is an invocation that the document logs with its origin; handlers
//! change the state, and the state is pushed into the properties that are bound to it.
use vstd::prelude::*;

use crate::a11y::{build_tree, entry_models, tree_of, Shown, TreeUpdate, ROOT_ID};
use crate::animation::{presented, EntryModel, ImplicitEntry};
use crate::coherence::{ancestor, coherent};
use crate::coherence_law::{children_distinct, law_coherent_can_be_walked, law_edits_keep_links};
use crate::env::{window_env, Env};
use crate::float::{steady, unit, FloatOp, Unit};
use crate::gesture::{counting, Recognizer, RecognizerModel};
use crate::id_set::{IdSet, PropTable};
use crate::input::{InputEvent, InputModel, PointerButton};
use crate::ir::{
    applied, edit_models, has_callback, verdict, DocModel, Document, EditModel, IrError, Mutation, MutationModel, Origin,
    Tree,
};
use crate::layout::{
    hit_test, layout, may_lay_out, no_layout, topmost, Frame, Layout, LayoutModel, Page, Plan,
};
use crate::lowering::sys;
use crate::node::{find_id, Node, NodeId, NodeModel};
use crate::paint::{paint, scene_of};
use crate::scene::{cmd_models, Scene};
use crate::store::Store;
use crate::text::{copy, in_order, join, same};
use crate::value::{Value, ValueModel};
use crate::walk::{
    ends, finite, law_finite_can_be_described, law_finite_can_be_planned, lemma_ancestor_ends, lemma_same_rooted, lemma_same_shape_on, lemma_same_walk,
    lemma_shape_kept, lemma_walk_inside, rooted, same_shape, walk, walk_order,
};

verus! {

/// A spring, by how fast it responds and how strongly it is damped. Numbers are singles by their
/// bits.
#[derive(Debug, Clone, Copy, PartialEq, Eq, Structural)]
pub struct Spring {
    pub response: u32,
    pub damping: u32,
}

/// Where a spring stands and where it goes.
#[derive(Debug, Clone, Copy, PartialEq, Eq, Structural)]
pub struct SpringState {
    pub value: u32,
    pub velocity: u32,
    pub target: u32,
}

/// A spring that drives one property of one node.
#[derive(Debug)]
pub struct SpringEntry {
    pub id: NodeId,
    pub prop: String,
    pub spring: Spring,
    pub state: SpringState,
}

/// A [`SpringEntry`] as mathematics.
#[verifier::ext_equal]
pub struct SpringModel {
    pub id: NodeId,
    pub prop: Seq<char>,
    pub spring: Spring,
    pub state: SpringState,
}

impl View for SpringEntry {
    type V = SpringModel;

    open spec fn view(&self) -> SpringModel {
        SpringModel { id: self.id, prop: self.prop@, spring: self.spring, state: self.state }
    }
}

/// The live interface.
#[derive(Debug)]
pub struct Runtime {
    pub(crate) doc: Document,
    pub(crate) store: Store,
    pub(crate) layout: Layout,
    pub(crate) viewport: (u32, u32),
    pub(crate) cursor: (u32, u32),
    pub(crate) env: Env,
    pub(crate) springs: Vec<SpringEntry>,
    pub(crate) implicit: Vec<ImplicitEntry>,
    pub(crate) prop_snapshot: PropTable,
    pub(crate) presence_snapshot: IdSet,
    pub(crate) presented_snapshot: IdSet,
    pub(crate) focused: Option<NodeId>,
    pub(crate) dirty: IdSet,
    pub(crate) audit_cursor: usize,
    pub(crate) nav_stack: Vec<String>,
    pub(crate) gestures: Vec<Recognizer>,
}

/// A [`Runtime`] as mathematics.
#[verifier::ext_equal]
pub struct RuntimeModel {
    /// The document.
    pub doc: DocModel,
    /// The state.
    pub state: Map<Seq<char>, ValueModel>,
    /// How many writes the state has taken.
    pub ticks: u64,
    /// The layout that is shown.
    pub layout: LayoutModel,
    pub viewport: (u32, u32),
    /// Where the pointer is.
    pub cursor: (u32, u32),
    pub env: Env,
    /// The springs that are going on.
    pub springs: Seq<SpringModel>,
    /// The animations that are going on.
    pub implicit: Seq<EntryModel>,
    /// The numbers last seen, by node and property.
    pub props: Map<(NodeId, Seq<char>), u32>,
    /// The nodes last seen.
    pub present: Set<NodeId>,
    /// The nodes last seen presented.
    pub presented: Set<NodeId>,
    /// The node in focus.
    pub focused: Option<NodeId>,
    /// The nodes touched since the last layout.
    pub dirty: Set<NodeId>,
    /// How much of the log is accounted for in `dirty`.
    pub audit_cursor: int,
    /// The routes, the current one last.
    pub nav: Seq<Seq<char>>,
    pub gestures: Seq<RecognizerModel>,
}

/// The models of a row of texts.
pub open spec fn texts(s: Seq<String>) -> Seq<Seq<char>> {
    s.map_values(|x: String| x@)
}

/// The models of a row of springs.
pub open spec fn spring_models(s: Seq<SpringEntry>) -> Seq<SpringModel> {
    s.map_values(|x: SpringEntry| x@)
}

/// The models of a row of animations.
pub open spec fn implicit_models(s: Seq<ImplicitEntry>) -> Seq<EntryModel> {
    s.map_values(|x: ImplicitEntry| x@)
}

/// The models of a row of recognisers.
pub open spec fn recognizer_models(s: Seq<Recognizer>) -> Seq<RecognizerModel> {
    s.map_values(|x: Recognizer| x@)
}

impl View for Runtime {
    type V = RuntimeModel;

    open(crate) spec fn view(&self) -> RuntimeModel {
        RuntimeModel {
            doc: self.doc@,
            state: self.store@,
            ticks: self.store.ticks(),
            layout: self.layout@,
            viewport: self.viewport,
            cursor: self.cursor,
            env: self.env,
            springs: spring_models(self.springs@),
            implicit: implicit_models(self.implicit@),
            props: self.prop_snapshot@,
            present: self.presence_snapshot@,
            presented: self.presented_snapshot@,
            focused: self.focused,
            dirty: self.dirty@,
            audit_cursor: self.audit_cursor as int,
            nav: texts(self.nav_stack@),
            gestures: recognizer_models(self.gestures@),
        }
    }
}

/// The document can be walked down and up, the log is accounted for up to some place in it, and every
/// recogniser counts.
pub open spec fn sound(m: RuntimeModel) -> bool {
    &&& finite(m.doc.tree)
    &&& rooted(m.doc.tree)
    &&& 0 <= m.audit_cursor <= m.doc.log.len()
    &&& forall|i: int| 0 <= i < m.gestures.len() ==> counting(#[trigger] m.gestures[i])
}

/// The engine takes every plan.
pub open spec fn engages<E: Fn(&Plan) -> Option<Vec<Frame>>>(e: E) -> bool {
    forall|p: &Plan| #[trigger] call_requires(e, (p,))
}

/// The values that the state has for the first `n` bindings of a node, with the properties that
/// they are for.
pub open spec fn node_updates(id: NodeId, n: NodeModel, state: Map<Seq<char>, ValueModel>, k: int) -> Seq<
    (NodeId, Seq<char>, ValueModel),
>
    decreases k,
{
    if k <= 0 {
        Seq::empty()
    } else {
        let key = in_order(n.bindings.dom())[k - 1];
        let path = n.bindings[key];
        if state.dom().contains(path) {
            node_updates(id, n, state, k - 1).push((id, key, state[path]))
        } else {
            node_updates(id, n, state, k - 1)
        }
    }
}

/// The values for the bindings of the first `k` nodes of an order.
pub open spec fn updates(t: Tree, order: Seq<NodeId>, state: Map<Seq<char>, ValueModel>, k: int) -> Seq<
    (NodeId, Seq<char>, ValueModel),
>
    decreases k,
{
    if k <= 0 {
        Seq::empty()
    } else {
        let id = order[k - 1];
        updates(t, order, state, k - 1) + node_updates(
            id,
            t.nodes[id],
            state,
            in_order(t.nodes[id].bindings.dom()).len() as int,
        )
    }
}

/// The document after the system set the first `k` of some properties.
pub open spec fn with_values(d: DocModel, ups: Seq<(NodeId, Seq<char>, ValueModel)>, k: int) -> DocModel
    decreases k,
{
    if k <= 0 {
        d
    } else {
        let u = ups[k - 1];
        sys(with_values(d, ups, k - 1), MutationModel::SetProp { id: u.0, key: u.1, value: u.2 })
    }
}

/// The document after the state was pushed into the properties that are bound to it.
pub open spec fn synced_doc(d: DocModel, state: Map<Seq<char>, ValueModel>) -> DocModel {
    let order = walk_order(d.tree);
    let ups = updates(d.tree, order, state, order.len() as int);
    with_values(d, ups, ups.len() as int)
}

/// The interface after the state was pushed into the properties that are bound to it.
pub open spec fn synced(m: RuntimeModel) -> RuntimeModel {
    RuntimeModel { doc: synced_doc(m.doc, m.state), ..m }
}

/// The nodes that a mutation touches.
pub open spec fn touches(m: MutationModel) -> Set<NodeId> {
    match m {
        MutationModel::CreateNode { id, .. } => set![id],
        MutationModel::SetRoot { id } => set![id],
        MutationModel::SetProp { id, .. } => set![id],
        MutationModel::RemoveProp { id, .. } => set![id],
        MutationModel::RemoveNode { id } => set![id],
        MutationModel::SetCallback { id, .. } => set![id],
        MutationModel::RemoveCallback { id, .. } => set![id],
        MutationModel::SetBinding { id, .. } => set![id],
        MutationModel::RemoveBinding { id, .. } => set![id],
        MutationModel::Reconstruct { id, .. } => set![id],
        MutationModel::AppendChild { parent, child } => set![parent, child],
        MutationModel::RemoveChild { parent, child } => set![parent, child],
        MutationModel::Invoke { .. } => Set::empty(),
    }
}

/// The nodes that the edits from `i` to `j` touch.
pub open spec fn touched(log: Seq<EditModel>, i: int, j: int) -> Set<NodeId>
    decreases j - i,
{
    if j <= i {
        Set::empty()
    } else {
        touched(log, i, j - 1).union(touches(log[j - 1].mutation))
    }
}

/// The interface with all of the log accounted for.
pub open spec fn marked(m: RuntimeModel) -> RuntimeModel {
    RuntimeModel {
        dirty: m.dirty.union(touched(m.doc.log, m.audit_cursor, m.doc.log.len() as int)),
        audit_cursor: m.doc.log.len() as int,
        ..m
    }
}

/// What a layout of the interface depends on.
pub open spec fn page(m: RuntimeModel, fl: Unit) -> Page {
    Page { tree: m.doc.tree, viewport: m.viewport, fl }
}

/// The interface `b` is `a` laid out anew.
pub open spec fn laid_out<E: Fn(&Plan) -> Option<Vec<Frame>>>(e: E, fl: Unit, a: RuntimeModel, b: RuntimeModel) -> bool {
    &&& may_lay_out(e, page(a, fl), b.layout)
    &&& b == (RuntimeModel { layout: b.layout, dirty: Set::empty(), ..marked(a) })
}

/// The interface `b` is `a` after a layout that is left out where nothing was touched and there
/// is one already.
pub open spec fn relaid<E: Fn(&Plan) -> Option<Vec<Frame>>>(e: E, fl: Unit, a: RuntimeModel, b: RuntimeModel) -> bool {
    if marked(a).dirty == Set::<NodeId>::empty() && a.layout.order.len() > 0 {
        b == marked(a)
    } else {
        laid_out(e, fl, a, b)
    }
}

/// The interface `b` is `a` after its state was pushed into its properties and it was laid out.
pub open spec fn settled<E: Fn(&Plan) -> Option<Vec<Frame>>>(e: E, fl: Unit, a: RuntimeModel, b: RuntimeModel) -> bool {
    relaid(e, fl, synced(a), b)
}

/// A document before anything is known of how it is shown.
pub open spec fn initial(d: DocModel, viewport: (u32, u32), env: Env) -> RuntimeModel {
    RuntimeModel {
        doc: d,
        state: Map::empty(),
        ticks: 0,
        layout: no_layout((0, 0)),
        viewport,
        cursor: (0, 0),
        env,
        springs: Seq::empty(),
        implicit: Seq::empty(),
        props: Map::empty(),
        present: Set::empty(),
        presented: Set::empty(),
        focused: None,
        dirty: Set::empty(),
        audit_cursor: 0,
        nav: Seq::empty(),
        gestures: Seq::empty(),
    }
}

/// Sets a property on behalf of the system.
pub(crate) fn set_prop(doc: &mut Document, id: NodeId, key: String, value: Value)
    ensures
        final(doc)@ == sys(old(doc)@, MutationModel::SetProp { id, key: key@, value: value@ }),
        same_shape(old(doc)@.tree, final(doc)@.tree),
        old(doc)@.log.len() <= final(doc)@.log.len(),
{
    proof {
        let m = MutationModel::SetProp { id, key: key@, value: value@ };
        lemma_shape_kept(doc@.tree, m);
    }
    let _done = doc.apply_from(Origin::System, Mutation::SetProp { id, key, value });
}

pub proof fn lemma_with_values(d: DocModel, ups: Seq<(NodeId, Seq<char>, ValueModel)>, k: int)
    ensures
        same_shape(d.tree, with_values(d, ups, k).tree),
        d.log.len() <= with_values(d, ups, k).log.len(),
    decreases k,
{
    if k > 0 {
        lemma_with_values(d, ups, k - 1);
        let e = with_values(d, ups, k - 1);
        let u = ups[k - 1];
        let m = MutationModel::SetProp { id: u.0, key: u.1, value: u.2 };
        lemma_shape_kept(e.tree, m);
        lemma_same_shape_on(d.tree, e.tree, sys(e, m).tree);
    }
}

/// Both trees have the same nodes with the same callbacks.
pub open spec fn same_callbacks(a: Tree, b: Tree) -> bool {
    &&& a.nodes.dom() == b.nodes.dom()
    &&& forall|id: NodeId| #[trigger] a.nodes.dom().contains(id) ==> a.nodes[id].callbacks == b.nodes[id].callbacks
}

proof fn lemma_values_keep_callbacks(d: DocModel, ups: Seq<(NodeId, Seq<char>, ValueModel)>, k: int)
    ensures
        same_callbacks(d.tree, with_values(d, ups, k).tree),
    decreases k,
{
    if k > 0 {
        lemma_values_keep_callbacks(d, ups, k - 1);
        let e = with_values(d, ups, k - 1);
        let u = ups[k - 1];
        let m = MutationModel::SetProp { id: u.0, key: u.1, value: u.2 };
        assert(same_callbacks(e.tree, sys(e, m).tree)) by {
            assert(e.tree.nodes.dom() =~= sys(e, m).tree.nodes.dom());
        }
    }
}

/// Firing an event, whatever its handler does to the state, leaves every callback as it is.
pub proof fn lemma_dispatch_keeps_callbacks<
    E: Fn(&Plan) -> Option<Vec<Frame>>,
    H: FnOnce(&str, &Store, Origin) -> Option<Store>,
>(
    e: E,
    h: H,
    fl: Unit,
    a: RuntimeModel,
    target: NodeId,
    event: Seq<char>,
    origin: Origin,
    b: RuntimeModel,
    r: bool,
)
    requires
        dispatched(e, h, fl, a, target, event, origin, b, r),
    ensures
        same_callbacks(a.doc.tree, b.doc.tree),
{
    if has_callback(a.doc.tree, target, event) {
        let f = invoked(a, target, event, origin);
        let (name, s, out) = choose|name: &str, s: &Store, out: Option<Store>| #[trigger]
            call_ensures(h, (name, s, origin), out) && name@
                == a.doc.tree.nodes[target].callbacks[event].name && s@ == a.state && s.ticks() == a.ticks
                && r == (out is Some) && match out {
                Some(t) => settled(e, fl, (RuntimeModel { state: t@, ticks: t.ticks(), ..f }), b),
                None => b == f,
            };
        match out {
            Some(t) => {
                let g = RuntimeModel { state: t@, ticks: t.ticks(), ..f };
                let order = walk_order(g.doc.tree);
                let ups = updates(g.doc.tree, order, g.state, order.len() as int);
                lemma_values_keep_callbacks(g.doc, ups, ups.len() as int);
            },
            None => {},
        }
    }
}

/// Setting properties keeps what is sound sound.
pub proof fn lemma_values_sound(m: RuntimeModel, ups: Seq<(NodeId, Seq<char>, ValueModel)>, k: int)
    requires
        sound(m),
    ensures
        sound(RuntimeModel { doc: with_values(m.doc, ups, k), ..m }),
        same_shape(m.doc.tree, with_values(m.doc, ups, k).tree),
{
    lemma_with_values(m.doc, ups, k);
    lemma_same_walk(m.doc.tree, with_values(m.doc, ups, k).tree);
    lemma_same_rooted(m.doc.tree, with_values(m.doc, ups, k).tree);
}

/// Pushing the state into the properties keeps the shape of the document.
pub proof fn lemma_synced_sound(m: RuntimeModel)
    requires
        sound(m),
    ensures
        sound(synced(m)),
        same_shape(m.doc.tree, synced(m).doc.tree),
{
    let order = walk_order(m.doc.tree);
    let ups = updates(m.doc.tree, order, m.state, order.len() as int);
    lemma_values_sound(m, ups, ups.len() as int);
}

fn collect_updates(id: NodeId, node: &Node, store: &Store, out: &mut Vec<(NodeId, String, Value)>)
    ensures
        update_models(final(out)@) == update_models(old(out)@) + node_updates(
            id,
            node@,
            store@,
            in_order(node@.bindings.dom()).len() as int,
        ),
{
    let n: usize = node.bindings.len();
    let ghost start = update_models(out@);
    let mut i: usize = 0;
    assert(node@.bindings.dom() =~= node.bindings@.dom());
    assert(start + node_updates(id, node@, store@, 0) =~= start);
    while i < n
        invariant
            i <= n,
            n == in_order(node.bindings@.dom()).len(),
            node@.bindings.dom() == node.bindings@.dom(),
            update_models(out@) == start + node_updates(id, node@, store@, i as int),
        decreases n - i,
    {
        let (k, b) = node.bindings.entry(i);
        let ghost was = update_models(out@);
        match store.get(b.expr.as_str()) {
            Some(v) => {
                let ghost m = (id, k@, v@);
                out.push((id, copy(k.as_str()), v));
                assert(update_models(out@) =~= was.push(m));
                assert(update_models(out@) =~= start + node_updates(id, node@, store@, i + 1));
            },
            None => {},
        }
        i += 1;
    }
}

spec fn update_models(s: Seq<(NodeId, String, Value)>) -> Seq<(NodeId, Seq<char>, ValueModel)> {
    s.map_values(|u: (NodeId, String, Value)| (u.0, u.1@, u.2@))
}

fn add_touched(dirty: &mut IdSet, m: &Mutation)
    ensures
        final(dirty)@ == old(dirty)@.union(touches(m@)),
{
    match m {
        Mutation::CreateNode { id, .. } => {
            dirty.insert(*id);
        },
        Mutation::SetRoot { id } => {
            dirty.insert(*id);
        },
        Mutation::SetProp { id, .. } => {
            dirty.insert(*id);
        },
        Mutation::RemoveProp { id, .. } => {
            dirty.insert(*id);
        },
        Mutation::RemoveNode { id } => {
            dirty.insert(*id);
        },
        Mutation::SetCallback { id, .. } => {
            dirty.insert(*id);
        },
        Mutation::RemoveCallback { id, .. } => {
            dirty.insert(*id);
        },
        Mutation::SetBinding { id, .. } => {
            dirty.insert(*id);
        },
        Mutation::RemoveBinding { id, .. } => {
            dirty.insert(*id);
        },
        Mutation::Reconstruct { id, .. } => {
            dirty.insert(*id);
        },
        Mutation::AppendChild { parent, child } => {
            dirty.insert(*parent);
            dirty.insert(*child);
        },
        Mutation::RemoveChild { parent, child } => {
            dirty.insert(*parent);
            dirty.insert(*child);
        },
        Mutation::Invoke { .. } => {},
    }
    assert(dirty@ =~= old(dirty)@.union(touches(m@)));
}

impl Runtime {
    /// Pushes the state into the properties that are bound to it. Nodes keep their ids and
    /// places; a binding whose path the state does not have leaves its property as it is.
    pub fn sync_bindings(&mut self)
        requires
            sound(old(self)@),
        ensures
            final(self)@ == synced(old(self)@),
            sound(final(self)@),
    {
        proof {
            lemma_synced_sound(self@);
        }
        let order = walk(&self.doc);
        let ghost d = self.doc@;
        let mut ups: Vec<(NodeId, String, Value)> = Vec::new();
        let mut i: usize = 0;
        assert(update_models(ups@) =~= Seq::empty());
        while i < order.len()
            invariant
                d == self.doc@,
                *self == *old(self),
                order@ == walk_order(d.tree),
                i <= order@.len(),
                finite(d.tree),
                update_models(ups@) == updates(d.tree, order@, self.store@, i as int),
            decreases order.len() - i,
        {
            let id = order[i];
            proof {
                lemma_walk_inside(d.tree, i as int);
            }
            match self.doc.get(id) {
                Some(node) => {
                    collect_updates(id, node, &self.store, &mut ups);
                },
                None => {},
            }
            i += 1;
        }
        let ghost all = update_models(ups@);
        let ghost total = ups@.len() as int;
        let mut j: usize = 0;
        let n: usize = ups.len();
        while j < n
            invariant
                j <= n,
                n == ups@.len(),
                all == update_models(ups@),
                self@ == (RuntimeModel { doc: with_values(d, all, j as int), ..old(self)@ }),
            decreases n - j,
        {
            let u = &ups[j];
            assert(all[j as int] == (u.0, u.1@, u.2@));
            set_prop(&mut self.doc, u.0, copy(u.1.as_str()), u.2.clone());
            j += 1;
        }
    }

    /// Adds the nodes that the edits since the last look at the log touched to the dirty ones.
    pub fn mark_dirty_from_log(&mut self)
        requires
            0 <= old(self)@.audit_cursor <= old(self)@.doc.log.len(),
        ensures
            final(self)@ == marked(old(self)@),
    {
        let ghost was = self@;
        let n: usize = self.doc.audit_log().len();
        let mut i: usize = self.audit_cursor;
        assert(self@ =~= RuntimeModel {
            dirty: was.dirty.union(touched(was.doc.log, was.audit_cursor, i as int)),
            ..was
        });
        while i < n
            invariant
                was.audit_cursor <= i <= n,
                n == was.doc.log.len(),
                self@ == (RuntimeModel {
                    dirty: was.dirty.union(touched(was.doc.log, was.audit_cursor, i as int)),
                    ..was
                }),
            decreases n - i,
        {
            let log = self.doc.audit_log();
            assert(was.doc.log[i as int] == log@[i as int]@);
            add_touched(&mut self.dirty, &log[i].mutation);
            i += 1;
            assert(self.dirty@ =~= was.dirty.union(touched(was.doc.log, was.audit_cursor, i as int)));
        }
        self.audit_cursor = n;
    }
}

/// Where the node has a callback for the event, the handlers can be asked to run its action with
/// the state as it is. Firing the event asks them for nothing else.
pub open spec fn handles<H: FnOnce(&str, &Store, Origin) -> Option<Store>>(
    h: H,
    m: RuntimeModel,
    id: NodeId,
    event: Seq<char>,
    origin: Origin,
) -> bool {
    has_callback(m.doc.tree, id, event) ==> forall|name: &str, s: &Store|
        name@ == m.doc.tree.nodes[id].callbacks[event].name && s@ == m.state && s.ticks() == m.ticks
            ==> #[trigger] call_requires(h, (name, s, origin))
}

/// The handlers can be asked to click the node in focus, where there is one.
pub open spec fn handles_focused<H: FnOnce(&str, &Store, Origin) -> Option<Store>>(h: H, m: RuntimeModel) -> bool {
    m.focused matches Some(id) ==> handles(h, m, id, "click"@, Origin::Human)
}

/// The handlers can be asked for the click that an input event makes, where it makes one.
pub open spec fn handles_input<H: FnOnce(&str, &Store, Origin) -> Option<Store>>(
    h: H,
    fl: Unit,
    m: RuntimeModel,
    input: InputModel,
) -> bool {
    match input {
        InputModel::PointerDown { x, y, button: PointerButton::Left } => forall|id: NodeId| #[trigger]
            handled_by(fl, (RuntimeModel { cursor: (x, y), ..m }), (x, y), "click"@, Some(id)) ==> handles(
                h,
                m,
                id,
                "click"@,
                Origin::Human,
            ),
        InputModel::KeyDown { key } => key == "Enter"@ || key == "Space"@ ==> handles_focused(h, m),
        _ => true,
    }
}

/// The interface after an invocation of `event` on a node was logged.
pub open spec fn invoked(m: RuntimeModel, id: NodeId, event: Seq<char>, origin: Origin) -> RuntimeModel {
    RuntimeModel { doc: applied(m.doc, origin, MutationModel::Invoke { id, event }), ..m }
}

/// What firing `event` on a node may make of the interface: without such a callback nothing, and
/// `false` is answered. Else the invocation is logged and the handlers are asked for the action
/// that the callback names, with the state as it is. Where none has that name this is all, and the
/// answer is `false` too; where one ran it is `true`, and the state that it left is pushed into the
/// properties and the document is laid out.
pub open spec fn dispatched<E: Fn(&Plan) -> Option<Vec<Frame>>, H: FnOnce(&str, &Store, Origin) -> Option<Store>>(
    e: E,
    h: H,
    fl: Unit,
    a: RuntimeModel,
    target: NodeId,
    event: Seq<char>,
    origin: Origin,
    b: RuntimeModel,
    r: bool,
) -> bool {
    if has_callback(a.doc.tree, target, event) {
        let f = invoked(a, target, event, origin);
        exists|name: &str, s: &Store, out: Option<Store>| #[trigger]
            call_ensures(h, (name, s, origin), out) && name@
                == a.doc.tree.nodes[target].callbacks[event].name && s@ == a.state && s.ticks() == a.ticks
                && r == (out is Some) && match out {
                Some(t) => settled(e, fl, (RuntimeModel { state: t@, ticks: t.ticks(), ..f }), b),
                None => b == f,
            }
    } else {
        !r && b == a
    }
}

/// The node that a pointer at a point would reach by itself.
pub open spec fn under(fl: Unit, m: RuntimeModel, p: (u32, u32)) -> Option<NodeId> {
    topmost(fl, m.layout, p, m.layout.order.len() as int)
}

/// The `k`-th ancestor of a node has a callback for the event.
pub open spec fn answers_at(t: Tree, id: NodeId, event: Seq<char>, k: nat) -> bool {
    match ancestor(t, id, k) {
        Some(a) => has_callback(t, a, event),
        None => false,
    }
}

/// The node that the event bubbles to from `start`: the first on the way up that has a callback
/// for it.
pub open spec fn bubbles(t: Tree, start: NodeId, event: Seq<char>, r: Option<NodeId>) -> bool {
    match r {
        Some(a) => exists|k: nat| {
            &&& #[trigger] answers_at(t, start, event, k)
            &&& ancestor(t, start, k) == Some(a)
            &&& forall|j: nat| j < k ==> !#[trigger] answers_at(t, start, event, j)
        },
        None => forall|k: nat| !#[trigger] answers_at(t, start, event, k),
    }
}

/// The node that an event at a point bubbles to.
pub open spec fn handled_by(fl: Unit, m: RuntimeModel, p: (u32, u32), event: Seq<char>, r: Option<NodeId>) -> bool {
    match under(fl, m, p) {
        Some(start) => bubbles(m.doc.tree, start, event, r),
        None => r is None,
    }
}

/// A pointer at a point is on the node or on something in it.
pub open spec fn lands_on(fl: Unit, m: RuntimeModel, p: (u32, u32), node: NodeId) -> bool {
    match under(fl, m, p) {
        Some(start) => exists|k: nat| #[trigger] ancestor(m.doc.tree, start, k) == Some(node),
        None => false,
    }
}

/// The actions that the first `k` callbacks of a node name.
pub open spec fn node_actions(id: NodeId, n: NodeModel, k: int) -> Seq<(NodeId, Seq<char>, Seq<char>)>
    decreases k,
{
    if k <= 0 {
        Seq::empty()
    } else {
        let event = in_order(n.callbacks.dom())[k - 1];
        node_actions(id, n, k - 1).push((id, event, n.callbacks[event].name))
    }
}

/// The actions that the first `k` nodes of an order offer.
pub open spec fn offered(t: Tree, order: Seq<NodeId>, k: int) -> Seq<(NodeId, Seq<char>, Seq<char>)>
    decreases k,
{
    if k <= 0 {
        Seq::empty()
    } else {
        let id = order[k - 1];
        if t.nodes.dom().contains(id) {
            offered(t, order, k - 1) + node_actions(
                id,
                t.nodes[id],
                in_order(t.nodes[id].callbacks.dom()).len() as int,
            )
        } else {
            offered(t, order, k - 1)
        }
    }
}

/// The models of a row of offered actions.
pub open spec fn offer_models(s: Seq<(NodeId, String, String)>) -> Seq<(NodeId, Seq<char>, Seq<char>)> {
    s.map_values(|a: (NodeId, String, String)| (a.0, a.1@, a.2@))
}

/// The nodes among the first `k` of an order that can be clicked.
pub open spec fn focusable(t: Tree, order: Seq<NodeId>, k: int) -> Seq<NodeId>
    decreases k,
{
    if k <= 0 {
        Seq::empty()
    } else if has_callback(t, order[k - 1], "click"@) {
        focusable(t, order, k - 1).push(order[k - 1])
    } else {
        focusable(t, order, k - 1)
    }
}

/// The nodes that can have the focus, in layout order.
pub open spec fn focus_ring(m: RuntimeModel) -> Seq<NodeId> {
    focusable(m.doc.tree, m.layout.order, m.layout.order.len() as int)
}

/// The place in the ring after a step from `focused`.
pub open spec fn next_place(ring: Seq<NodeId>, focused: Option<NodeId>, forward: bool) -> int {
    match focused {
        None => if forward {
            0
        } else {
            ring.len() - 1
        },
        Some(cur) => {
            let at = match ring.index_of_first(cur) {
                Some(i) => i,
                None => 0,
            };
            if forward {
                (at + 1) % ring.len() as int
            } else {
                (at + ring.len() - 1) % ring.len() as int
            }
        },
    }
}

/// The interface after the focus took a step.
pub open spec fn refocused(m: RuntimeModel, forward: bool) -> RuntimeModel {
    let ring = focus_ring(m);
    if ring.len() == 0 {
        m
    } else {
        RuntimeModel { focused: Some(ring[next_place(ring, m.focused, forward)]), ..m }
    }
}

/// What one input event may make of the interface, and whether it was handled.
pub open spec fn reacted<E: Fn(&Plan) -> Option<Vec<Frame>>, H: FnOnce(&str, &Store, Origin) -> Option<Store>>(
    e: E,
    h: H,
    fl: Unit,
    a: RuntimeModel,
    input: InputModel,
    b: RuntimeModel,
    r: bool,
) -> bool {
    match input {
        InputModel::PointerMoved { x, y } => !r && b == (RuntimeModel { cursor: (x, y), ..a }),
        InputModel::PointerDown { x, y, button: PointerButton::Left } => {
            let at = RuntimeModel { cursor: (x, y), ..a };
            ||| r == false && b == at && handled_by(fl, at, (x, y), "click"@, None)
            ||| exists|id: NodeId| {
                &&& #[trigger] handled_by(fl, at, (x, y), "click"@, Some(id))
                &&& dispatched(
                    e,
                    h,
                    fl,
                    (RuntimeModel { focused: Some(id), ..at }),
                    id,
                    "click"@,
                    Origin::Human,
                    b,
                    r,
                )
            }
        },
        InputModel::KeyDown { key } => if key == "Tab"@ {
            r == (focus_ring(a).len() > 0) && b == refocused(a, true)
        } else if key == "Enter"@ || key == "Space"@ {
            activated(e, h, fl, a, b, r)
        } else {
            !r && b == a
        },
        _ => !r && b == a,
    }
}

/// What a click on the node in focus may make of the interface.
pub open spec fn activated<E: Fn(&Plan) -> Option<Vec<Frame>>, H: FnOnce(&str, &Store, Origin) -> Option<Store>>(
    e: E,
    h: H,
    fl: Unit,
    a: RuntimeModel,
    b: RuntimeModel,
    r: bool,
) -> bool {
    match a.focused {
        Some(id) => dispatched(e, h, fl, a, id, "click"@, Origin::Human, b, r),
        None => !r && b == a,
    }
}

/// How many of the first `k` edits are invocations by `origin`.
pub open spec fn invocations(log: Seq<EditModel>, origin: Origin, k: int) -> nat
    decreases k,
{
    if k <= 0 {
        0
    } else if log[k - 1].mutation is Invoke && log[k - 1].origin == origin {
        invocations(log, origin, k - 1) + 1
    } else {
        invocations(log, origin, k - 1)
    }
}

/// The interface after an invocation was logged on the root, where there is one.
pub open spec fn noted(m: RuntimeModel, event: Seq<char>, origin: Origin) -> RuntimeModel {
    match m.doc.tree.root {
        Some(root) => invoked(m, root, event, origin),
        None => m,
    }
}

/// The interface with `value` under `key` in its state.
pub open spec fn with_state(m: RuntimeModel, key: Seq<char>, value: ValueModel) -> RuntimeModel {
    RuntimeModel { state: m.state.insert(key, value), ticks: (m.ticks + 1) as u64, ..m }
}

/// The interface with a route pushed, before its state reaches its properties.
pub open spec fn navigated(m: RuntimeModel, route: Seq<char>, origin: Origin) -> RuntimeModel {
    let n = noted(m, "navigate:"@ + route, origin);
    with_state((RuntimeModel { nav: n.nav.push(route), ..n }), "route"@, ValueModel::Text(route))
}

/// The interface with the last route popped, before its state reaches its properties.
pub open spec fn gone_back(m: RuntimeModel, origin: Origin) -> RuntimeModel {
    let n = noted(m, "back"@, origin);
    let nav = n.nav.drop_last();
    let route = if nav.len() > 0 {
        nav.last()
    } else {
        Seq::empty()
    };
    with_state((RuntimeModel { nav, ..n }), "route"@, ValueModel::Text(route))
}

/// The interface with a presentation shown or hidden, before its state reaches its properties.
pub open spec fn with_presented(m: RuntimeModel, key: Seq<char>, value: bool, origin: Origin) -> RuntimeModel {
    let event = if value {
        "present:"@ + key
    } else {
        "dismiss:"@ + key
    };
    with_state(noted(m, event, origin), key, ValueModel::Bool(value))
}

/// Logging an invocation keeps what is sound sound.
proof fn lemma_invoked_sound(m: RuntimeModel, id: NodeId, event: Seq<char>, origin: Origin)
    requires
        sound(m),
    ensures
        sound(invoked(m, id, event, origin)),
        invoked(m, id, event, origin).doc.tree == m.doc.tree,
{
}

fn collect_actions(id: NodeId, node: &Node, out: &mut Vec<(NodeId, String, String)>)
    ensures
        offer_models(final(out)@) == offer_models(old(out)@) + node_actions(
            id,
            node@,
            in_order(node@.callbacks.dom()).len() as int,
        ),
{
    let n: usize = node.callbacks.len();
    let ghost start = offer_models(out@);
    let mut i: usize = 0;
    assert(node@.callbacks.dom() =~= node.callbacks@.dom());
    assert(start + node_actions(id, node@, 0) =~= start);
    while i < n
        invariant
            i <= n,
            n == in_order(node.callbacks@.dom()).len(),
            node@.callbacks.dom() == node.callbacks@.dom(),
            offer_models(out@) == start + node_actions(id, node@, i as int),
        decreases n - i,
    {
        let (k, a) = node.callbacks.entry(i);
        let ghost was = offer_models(out@);
        out.push((id, copy(k.as_str()), copy(a.name.as_str())));
        assert(offer_models(out@) =~= was.push((id, k@, a.name@)));
        assert(offer_models(out@) =~= start + node_actions(id, node@, i + 1));
        i += 1;
    }
}

impl Runtime {
    /// Lays the document out, unless nothing was touched since it was last laid out.
    pub fn relayout<F: Fn(&FloatOp) -> Option<u64>, E: Fn(&Plan) -> Option<Vec<Frame>>>(&mut self, fl: &F, engine: &E)
        requires
            sound(old(self)@),
            steady(*fl),
            engages(*engine),
        ensures
            relaid(*engine, unit(*fl), old(self)@, final(self)@),
            sound(final(self)@),
    {
        self.mark_dirty_from_log();
        if self.dirty.is_empty() && !self.layout.is_empty() {
            return;
        }
        proof {
            law_finite_can_be_planned(page(self@, unit(*fl)));
        }
        self.layout = layout(&self.doc, self.viewport, fl, engine);
        self.dirty = IdSet::new();
    }

    fn relayout_force<F: Fn(&FloatOp) -> Option<u64>, E: Fn(&Plan) -> Option<Vec<Frame>>>(&mut self, fl: &F, engine: &E)
        requires
            sound(old(self)@),
            steady(*fl),
            engages(*engine),
        ensures
            laid_out(*engine, unit(*fl), old(self)@, final(self)@),
            sound(final(self)@),
    {
        self.mark_dirty_from_log();
        proof {
            law_finite_can_be_planned(page(self@, unit(*fl)));
        }
        self.layout = layout(&self.doc, self.viewport, fl, engine);
        self.dirty = IdSet::new();
    }

    /// Pushes the state into the properties that are bound to it and lays the document out.
    pub(crate) fn settle<F: Fn(&FloatOp) -> Option<u64>, E: Fn(&Plan) -> Option<Vec<Frame>>>(&mut self, fl: &F, engine: &E)
        requires
            sound(old(self)@),
            steady(*fl),
            engages(*engine),
        ensures
            settled(*engine, unit(*fl), old(self)@, final(self)@),
            sound(final(self)@),
    {
        self.sync_bindings();
        self.relayout(fl, engine);
    }

    /// Sets the size of the viewport, takes the environment from it, and lays the document out.
    pub fn set_viewport<F: Fn(&FloatOp) -> Option<u64>, E: Fn(&Plan) -> Option<Vec<Frame>>>(
        &mut self,
        viewport: (u32, u32),
        fl: &F,
        engine: &E,
    )
        requires
            sound(old(self)@),
            steady(*fl),
            engages(*engine),
        ensures
            laid_out(
                *engine,
                unit(*fl),
                (RuntimeModel { viewport, env: window_env(viewport.0, viewport.1), ..old(self)@ }),
                final(self)@,
            ),
            sound(final(self)@),
    {
        self.viewport = viewport;
        self.env = Env::for_window(viewport.0, viewport.1);
        self.relayout_force(fl, engine);
    }

    /// The document, with its log.
    pub fn doc(&self) -> (r: &Document)
        ensures
            r@ == self@.doc,
    {
        &self.doc
    }

    /// The state.
    pub fn store(&self) -> (r: &Store)
        ensures
            r@ == self@.state,
            r.ticks() == self@.ticks,
    {
        &self.store
    }

    /// Applies an edit to the document on behalf of `origin`. It shows with the next layout. Where the
    /// links of the document agree they still do, and the interface stays sound.
    pub fn edit(&mut self, origin: Origin, mutation: Mutation) -> (r: Result<(), IrError>)
        ensures
            r == verdict(old(self)@.doc, mutation@),
            final(self)@ == (RuntimeModel { doc: applied(old(self)@.doc, origin, mutation@), ..old(self)@ }),
            sound(old(self)@) && coherent(old(self)@.doc.tree) && children_distinct(old(self)@.doc.tree) ==> sound(
                final(self)@,
            ) && coherent(final(self)@.doc.tree) && children_distinct(final(self)@.doc.tree),
    {
        let ghost a = self@;
        let r = self.doc.apply_from(origin, mutation);
        let _count: usize = self.doc.len();
        proof {
            if coherent(a.doc.tree) && children_distinct(a.doc.tree) && r is Ok {
                law_edits_keep_links(a.doc.tree, mutation@);
                law_coherent_can_be_walked(self@.doc.tree);
            }
        }
        r
    }

    /// The state, to write to. What is written reaches the bound properties with the next
    /// [`Runtime::sync_bindings`].
    pub fn store_mut(&mut self) -> (r: &mut Store)
        ensures
            r@ == old(self)@.state,
            r.ticks() == old(self)@.ticks,
            final(self)@ == (RuntimeModel { state: final(r)@, ticks: final(r).ticks(), ..old(self)@ }),
    {
        &mut self.store
    }

    /// The environment.
    pub fn env(&self) -> (r: Env)
        ensures
            r == self@.env,
    {
        self.env
    }

    /// The environment, to write to.
    pub fn env_mut(&mut self) -> (r: &mut Env)
        ensures
            *r == old(self)@.env,
            final(self)@ == (RuntimeModel { env: *final(r), ..old(self)@ }),
    {
        &mut self.env
    }

    /// The layout that is shown.
    pub fn layout(&self) -> (r: &Layout)
        ensures
            r@ == self@.layout,
    {
        &self.layout
    }

    /// The size of the viewport.
    pub fn viewport(&self) -> (r: (u32, u32))
        ensures
            r == self@.viewport,
    {
        self.viewport
    }

    /// The nodes touched since the last layout, as far as the log was looked through.
    pub fn dirty_nodes(&self) -> (r: &IdSet)
        ensures
            r@ == self@.dirty,
    {
        &self.dirty
    }

    /// The node in focus.
    pub fn focused(&self) -> (r: Option<NodeId>)
        ensures
            r == self@.focused,
    {
        self.focused
    }

    /// The document as it is laid out, painted.
    pub fn scene<F: Fn(&FloatOp) -> Option<u64>>(&self, fl: &F) -> (r: Scene)
        requires
            steady(*fl),
        ensures
            cmd_models(r@) == scene_of(
                unit(*fl),
                self@.doc.tree,
                self@.layout,
                self@.layout.order.len() as int,
            ),
    {
        paint(&self.doc, &self.layout, fl)
    }

    /// Fires `event` on a node on behalf of `origin`: the one way in for people and assistants
    /// alike. The invocation is logged, the handler of the action runs, and what it did to the
    /// state shows. `true` exactly when a handler ran. The handlers are used up by the call: they are
    /// asked once, and only where the node has such a callback.
    pub fn invoke<
        F: Fn(&FloatOp) -> Option<u64>,
        E: Fn(&Plan) -> Option<Vec<Frame>>,
        H: FnOnce(&str, &Store, Origin) -> Option<Store>,
    >(&mut self, node: NodeId, event: &str, origin: Origin, fl: &F, engine: &E, handlers: H) -> (r: bool)
        requires
            sound(old(self)@),
            steady(*fl),
            engages(*engine),
            handles(handlers, old(self)@, node, event@, origin),
        ensures
            dispatched(
                *engine,
                handlers,
                unit(*fl),
                old(self)@,
                node,
                event@,
                origin,
                final(self)@,
                r,
            ),
            sound(final(self)@),
    {
        let ghost a = self@;
        let action = match self.doc.fire(node, event, origin) {
            Some(action) => action,
            None => {
                return false;
            },
        };
        let ghost f = invoked(a, node, event@, origin);
        proof {
            lemma_invoked_sound(a, node, event@, origin);
        }
        let name = action.name.as_str();
        let out = handlers(name, &self.store, origin);
        let ghost was = self.store;
        assert(call_ensures(handlers, (name, &was, origin), out));
        match out {
            Some(store) => {
                self.store = store;
                let ghost g = RuntimeModel { state: store@, ticks: store.ticks(), ..f };
                assert(self@ == g);
                self.settle(fl, engine);
                assert(settled(*engine, unit(*fl), g, self@));
                true
            },
            None => {
                assert(self@ == f);
                false
            },
        }
    }

    /// Fires `event` on a node on behalf of an assistant.
    pub fn ai_fire<
        F: Fn(&FloatOp) -> Option<u64>,
        E: Fn(&Plan) -> Option<Vec<Frame>>,
        H: FnOnce(&str, &Store, Origin) -> Option<Store>,
    >(&mut self, target: NodeId, event: &str, fl: &F, engine: &E, handlers: H) -> (r: bool)
        requires
            sound(old(self)@),
            steady(*fl),
            engages(*engine),
            handles(handlers, old(self)@, target, event@, Origin::Ai),
        ensures
            dispatched(
                *engine,
                handlers,
                unit(*fl),
                old(self)@,
                target,
                event@,
                Origin::Ai,
                final(self)@,
                r,
            ),
            sound(final(self)@),
    {
        self.invoke(target, event, Origin::Ai, fl, engine, handlers)
    }

    /// The node that `event` at a point bubbles to: the topmost node there or the first above it
    /// that has a callback for the event.
    pub fn bubble_to_handler<F: Fn(&FloatOp) -> Option<u64>>(&self, point: (u32, u32), event: &str, fl: &F) -> (r: Option<
        NodeId,
    >)
        requires
            sound(self@),
            steady(*fl),
        ensures
            handled_by(unit(*fl), self@, point, event@, r),
    {
        let start = match hit_test(&self.layout, point, fl) {
            Some(start) => start,
            None => {
                return None;
            },
        };
        let ghost t = self.doc@.tree;
        let ghost end: nat = lemma_end(t, start);
        let ghost mut k: nat = 0;
        let mut current = start;
        loop
            invariant
                t == self.doc@.tree,
                ancestor(t, start, end) is None,
                ancestor(t, start, k) == Some(current),
                forall|j: nat| j < k ==> !#[trigger] answers_at(t, start, event@, j),
                under(unit(*fl), self@, point) == Some(start),
            decreases end - k,
        {
            proof {
                if end <= k {
                    lemma_ancestor_ends(t, start, end, k);
                }
            }
            let node = match self.doc.get(current) {
                Some(node) => node,
                None => {
                    proof {
                        assert(ancestor(t, start, k + 1) is None);
                        lemma_none_answers(t, start, event@, k);
                    }
                    return None;
                },
            };
            if node.callbacks.contains_key(event) {
                assert(answers_at(t, start, event@, k));
                return Some(current);
            }
            assert(!answers_at(t, start, event@, k));
            match node.parent {
                Some(parent) => {
                    proof {
                        k = k + 1;
                    }
                    current = parent;
                },
                None => {
                    proof {
                        assert(ancestor(t, start, k + 1) is None);
                        lemma_none_answers(t, start, event@, k);
                    }
                    return None;
                },
            }
        }
    }

    /// `true` exactly when a pointer at a point is on the node or on something in it.
    pub fn point_hits_node<F: Fn(&FloatOp) -> Option<u64>>(&self, point: (u32, u32), node: NodeId, fl: &F) -> (r: bool)
        requires
            sound(self@),
            steady(*fl),
        ensures
            r == lands_on(unit(*fl), self@, point, node),
    {
        let start = match hit_test(&self.layout, point, fl) {
            Some(start) => start,
            None => {
                return false;
            },
        };
        let ghost t = self.doc@.tree;
        let ghost end: nat = lemma_end(t, start);
        let ghost mut k: nat = 0;
        let mut current = start;
        loop
            invariant
                t == self.doc@.tree,
                ancestor(t, start, end) is None,
                ancestor(t, start, k) == Some(current),
                forall|j: nat| j < k ==> #[trigger] ancestor(t, start, j) != Some(node),
                under(unit(*fl), self@, point) == Some(start),
            decreases end - k,
        {
            proof {
                if end <= k {
                    lemma_ancestor_ends(t, start, end, k);
                }
            }
            if current == node {
                return true;
            }
            let next = match self.doc.get(current) {
                Some(n) => n.parent,
                None => None,
            };
            assert(ancestor(t, start, k + 1) == next);
            match next {
                Some(parent) => {
                    proof {
                        k = k + 1;
                    }
                    current = parent;
                },
                None => {
                    proof {
                        assert forall|j: nat| #[trigger] ancestor(t, start, j) != Some(node) by {
                            if j > k {
                                lemma_ancestor_ends(t, start, k + 1, j);
                            }
                        }
                    }
                    return false;
                },
            }
        }
    }

    /// Every callback of the nodes that were laid out, with the action it names: what can be
    /// invoked, in layout order.
    pub fn actions(&self) -> (r: Vec<(NodeId, String, String)>)
        ensures
            offer_models(r@) == offered(self@.doc.tree, self@.layout.order, self@.layout.order.len() as int),
    {
        let order = self.layout.order();
        let mut out: Vec<(NodeId, String, String)> = Vec::new();
        let mut i: usize = 0;
        assert(offer_models(out@) =~= Seq::empty());
        while i < order.len()
            invariant
                order@ == self@.layout.order,
                i <= order@.len(),
                offer_models(out@) == offered(self@.doc.tree, order@, i as int),
            decreases order.len() - i,
        {
            match self.doc.get(order[i]) {
                Some(node) => {
                    collect_actions(order[i], node, &mut out);
                },
                None => {},
            }
            i += 1;
        }
        out
    }

    fn focusable_nodes(&self) -> (r: Vec<NodeId>)
        ensures
            r@ == focus_ring(self@),
    {
        let order = self.layout.order();
        let mut out: Vec<NodeId> = Vec::new();
        let mut i: usize = 0;
        assert(out@ =~= Seq::empty());
        while i < order.len()
            invariant
                order@ == self@.layout.order,
                i <= order@.len(),
                out@ == focusable(self@.doc.tree, order@, i as int),
            decreases order.len() - i,
        {
            let id = order[i];
            let clickable = match self.doc.get(id) {
                Some(node) => node.callbacks.contains_key("click"),
                None => false,
            };
            if clickable {
                out.push(id);
            }
            i += 1;
        }
        out
    }

    /// Moves the focus to the next node that can be clicked, or the one before, and from one end
    /// to the other. `true` exactly when there is such a node.
    pub fn move_focus(&mut self, forward: bool) -> (r: bool)
        ensures
            r == (focus_ring(old(self)@).len() > 0),
            final(self)@ == refocused(old(self)@, forward),
    {
        let ring = self.focusable_nodes();
        let n: usize = ring.len();
        if n == 0 {
            return false;
        }
        let next: usize = match self.focused {
            None => if forward {
                0
            } else {
                n - 1
            },
            Some(cur) => {
                let at: usize = match find_id(&ring, cur) {
                    Some(at) => at,
                    None => 0,
                };
                if forward {
                    if at + 1 == n {
                        0
                    } else {
                        at + 1
                    }
                } else if at == 0 {
                    n - 1
                } else {
                    at - 1
                }
            },
        };
        proof {
            ring@.index_of_first_ensures(self.focused->0);
            lemma_next_place(ring@, self.focused, forward, next as int);
        }
        self.focused = Some(ring[next]);
        true
    }

    /// Clicks the node in focus on behalf of a person.
    pub fn activate_focused<
        F: Fn(&FloatOp) -> Option<u64>,
        E: Fn(&Plan) -> Option<Vec<Frame>>,
        H: FnOnce(&str, &Store, Origin) -> Option<Store>,
    >(&mut self, fl: &F, engine: &E, handlers: H) -> (r: bool)
        requires
            sound(old(self)@),
            steady(*fl),
            engages(*engine),
            handles_focused(handlers, old(self)@),
        ensures
            activated(*engine, handlers, unit(*fl), old(self)@, final(self)@, r),
            sound(final(self)@),
    {
        match self.focused {
            Some(id) => self.invoke(id, "click", Origin::Human, fl, engine, handlers),
            None => false,
        }
    }

    /// Takes one input event in. A left press bubbles to a node that can be clicked, which gets
    /// the focus and the click; the tabulator (`Tab`) moves the focus, the enter
    /// and space keys (`Enter`, `Space`) click what has it. `true` exactly when the focus moved by
    /// the keyboard or the click ran a handler.
    pub fn on_input<
        F: Fn(&FloatOp) -> Option<u64>,
        E: Fn(&Plan) -> Option<Vec<Frame>>,
        H: FnOnce(&str, &Store, Origin) -> Option<Store>,
    >(&mut self, input: &InputEvent, fl: &F, engine: &E, handlers: H) -> (r: bool)
        requires
            sound(old(self)@),
            steady(*fl),
            engages(*engine),
            handles_input(handlers, unit(*fl), old(self)@, input@),
        ensures
            reacted(*engine, handlers, unit(*fl), old(self)@, input@, final(self)@, r),
            sound(final(self)@),
    {
        let ghost a = self@;
        match input {
            InputEvent::PointerMoved { x, y } => {
                self.cursor = (*x, *y);
                false
            },
            InputEvent::PointerDown { x, y, button: PointerButton::Left } => {
                self.cursor = (*x, *y);
                let ghost at = RuntimeModel { cursor: (*x, *y), ..a };
                assert(self@ == at);
                match self.bubble_to_handler((*x, *y), "click", fl) {
                    Some(id) => {
                        assert(handled_by(unit(*fl), at, (*x, *y), "click"@, Some(id)));
                        self.focused = Some(id);
                        assert(self@ == (RuntimeModel { focused: Some(id), ..at }));
                        self.invoke(id, "click", Origin::Human, fl, engine, handlers)
                    },
                    None => false,
                }
            },
            InputEvent::KeyDown { key } => {
                if same(key.as_str(), "Tab") {
                    self.move_focus(true)
                } else if same(key.as_str(), "Enter") || same(key.as_str(), "Space") {
                    self.activate_focused(fl, engine, handlers)
                } else {
                    false
                }
            },
            _ => false,
        }
    }

    /// Where an assistant clicks when it is not told: on what the pointer is on, else on the
    /// first node that can be clicked.
    pub fn ai_click_target<F: Fn(&FloatOp) -> Option<u64>>(&self, fl: &F) -> (r: Option<NodeId>)
        requires
            sound(self@),
            steady(*fl),
        ensures
            if handled_by(unit(*fl), self@, self@.cursor, "click"@, None) {
                r == if focus_ring(self@).len() > 0 {
                    Some(focus_ring(self@)[0])
                } else {
                    None
                }
            } else {
                r is Some && handled_by(unit(*fl), self@, self@.cursor, "click"@, r)
            },
    {
        match self.bubble_to_handler(self.cursor, "click", fl) {
            Some(id) => {
                return Some(id);
            },
            None => {},
        }
        let ring = self.focusable_nodes();
        if ring.len() > 0 {
            Some(ring[0])
        } else {
            None
        }
    }

    /// How many invocations the log holds, by people and by assistants.
    pub fn invoke_counts(&self) -> (r: (usize, usize))
        ensures
            r.0 == invocations(self@.doc.log, Origin::Human, self@.doc.log.len() as int),
            r.1 == invocations(self@.doc.log, Origin::Ai, self@.doc.log.len() as int),
    {
        let log = self.doc.audit_log();
        let ghost m = self@.doc.log;
        let mut human: usize = 0;
        let mut ai: usize = 0;
        let mut i: usize = 0;
        while i < log.len()
            invariant
                edit_models(log@) == m,
                i <= log@.len(),
                human <= i,
                ai <= i,
                human == invocations(m, Origin::Human, i as int),
                ai == invocations(m, Origin::Ai, i as int),
            decreases log.len() - i,
        {
            assert(m[i as int] == log@[i as int]@);
            let edit = &log[i];
            let is_invoke = match &edit.mutation {
                Mutation::Invoke { .. } => true,
                _ => false,
            };
            if is_invoke {
                match edit.origin {
                    Origin::Human => {
                        human += 1;
                    },
                    Origin::Ai => {
                        ai += 1;
                    },
                    Origin::System => {},
                }
            }
            i += 1;
        }
        assert(edit_models(log@).len() == log@.len());
        (human, ai)
    }

    /// The current route.
    pub fn route(&self) -> (r: Option<&str>)
        ensures
            match r {
                Some(s) => self@.nav.len() > 0 && s@ == self@.nav.last(),
                None => self@.nav.len() == 0,
            },
    {
        let n: usize = self.nav_stack.len();
        if n == 0 {
            None
        } else {
            Some(self.nav_stack[n - 1].as_str())
        }
    }

    /// The routes, the current one last.
    pub fn nav_stack(&self) -> (r: &[String])
        ensures
            texts(r@) == self@.nav,
    {
        self.nav_stack.as_slice()
    }

    fn record_nav_invoke(&mut self, event: String, origin: Origin)
        requires
            sound(old(self)@),
        ensures
            final(self)@ == noted(old(self)@, event@, origin),
            sound(final(self)@),
    {
        match self.doc.root() {
            Some(root) => {
                proof {
                    lemma_invoked_sound(self@, root, event@, origin);
                }
                let _done = self.doc.apply_from(origin, Mutation::Invoke { id: root, event });
            },
            None => {},
        }
    }

    /// Goes to a route: the navigation is logged as an invocation on the root, the route is
    /// pushed and put under `route` in the state, and the document shows it.
    pub fn navigate<F: Fn(&FloatOp) -> Option<u64>, E: Fn(&Plan) -> Option<Vec<Frame>>>(
        &mut self,
        route: &str,
        origin: Origin,
        fl: &F,
        engine: &E,
    ) -> (r: bool)
        requires
            sound(old(self)@),
            old(self)@.ticks < u64::MAX,
            steady(*fl),
            engages(*engine),
        ensures
            r,
            settled(*engine, unit(*fl), navigated(old(self)@, route@, origin), final(self)@),
            sound(final(self)@),
    {
        let ghost a = self@;
        self.record_nav_invoke(join("navigate:", route), origin);
        let ghost was = self.nav_stack@;
        self.nav_stack.push(copy(route));
        assert(texts(self.nav_stack@) =~= texts(was).push(route@));
        self.store.set("route", Value::Text(copy(route)));
        assert(self@ == navigated(a, route@, origin));
        self.settle(fl, engine);
        true
    }

    /// Goes back: the route is popped and the one before it put under `route` in the state, an
    /// empty text where there is none. `false`, and nothing happens, exactly when there is no
    /// route.
    pub fn back<F: Fn(&FloatOp) -> Option<u64>, E: Fn(&Plan) -> Option<Vec<Frame>>>(
        &mut self,
        origin: Origin,
        fl: &F,
        engine: &E,
    ) -> (r: bool)
        requires
            sound(old(self)@),
            old(self)@.ticks < u64::MAX,
            steady(*fl),
            engages(*engine),
        ensures
            r == (old(self)@.nav.len() > 0),
            if r {
                settled(*engine, unit(*fl), gone_back(old(self)@, origin), final(self)@)
            } else {
                final(self)@ == old(self)@
            },
            sound(final(self)@),
    {
        if self.nav_stack.len() == 0 {
            return false;
        }
        let ghost a = self@;
        self.record_nav_invoke(copy("back"), origin);
        let ghost was = self.nav_stack@;
        let _popped = self.nav_stack.pop();
        assert(texts(self.nav_stack@) =~= texts(was).drop_last());
        let n: usize = self.nav_stack.len();
        let route = if n > 0 {
            copy(self.nav_stack[n - 1].as_str())
        } else {
            String::new()
        };
        assert(n == 0 ==> route@ =~= Seq::<char>::empty());
        self.store.set("route", Value::Text(route));
        assert(self@ == gone_back(a, origin));
        self.settle(fl, engine);
        true
    }

    /// Shows what is presented while `key` is true in the state.
    pub fn present<F: Fn(&FloatOp) -> Option<u64>, E: Fn(&Plan) -> Option<Vec<Frame>>>(
        &mut self,
        key: &str,
        origin: Origin,
        fl: &F,
        engine: &E,
    ) -> (r: bool)
        requires
            sound(old(self)@),
            old(self)@.ticks < u64::MAX,
            steady(*fl),
            engages(*engine),
        ensures
            r,
            settled(*engine, unit(*fl), with_presented(old(self)@, key@, true, origin), final(self)@),
            sound(final(self)@),
    {
        let ghost a = self@;
        self.record_nav_invoke(join("present:", key), origin);
        self.store.set(key, Value::Bool(true));
        assert(self@ == with_presented(a, key@, true, origin));
        self.settle(fl, engine);
        true
    }

    /// Hides what is presented while `key` is true in the state.
    pub fn dismiss<F: Fn(&FloatOp) -> Option<u64>, E: Fn(&Plan) -> Option<Vec<Frame>>>(
        &mut self,
        key: &str,
        origin: Origin,
        fl: &F,
        engine: &E,
    ) -> (r: bool)
        requires
            sound(old(self)@),
            old(self)@.ticks < u64::MAX,
            steady(*fl),
            engages(*engine),
        ensures
            r,
            settled(*engine, unit(*fl), with_presented(old(self)@, key@, false, origin), final(self)@),
            sound(final(self)@),
    {
        let ghost a = self@;
        self.record_nav_invoke(join("dismiss:", key), origin);
        self.store.set(key, Value::Bool(false));
        assert(self@ == with_presented(a, key@, false, origin));
        self.settle(fl, engine);
        true
    }

    /// `true` exactly when `key` is true in the state.
    pub fn is_presented(&self, key: &str) -> (r: bool)
        ensures
            r == (self@.state.dom().contains(key@) && self@.state[key@] == ValueModel::Bool(true)),
    {
        match self.store.get(key) {
            Some(Value::Bool(b)) => b,
            _ => false,
        }
    }

    /// The accessibility tree of the document as it is laid out, with the focus where it is.
    pub fn a11y_update<F: Fn(&FloatOp) -> Option<u64>>(&self, fl: &F) -> (r: TreeUpdate)
        requires
            sound(self@),
            steady(*fl),
            !self@.doc.tree.nodes.dom().contains(NodeId(u64::MAX)),
            self@.focused != Some(NodeId(u64::MAX)),
        ensures
            entry_models(r.nodes@) == tree_of(
                Shown { tree: self@.doc.tree, layout: self@.layout, fl: unit(*fl) },
            ),
            r.root == ROOT_ID,
            r.focus == match self@.focused {
                Some(id) => (id.0 + 1) as u64,
                None => ROOT_ID,
            },
    {
        proof {
            law_finite_can_be_described(
                Shown { tree: self@.doc.tree, layout: self@.layout, fl: unit(*fl) },
            );
        }
        build_tree(&self.doc, &self.layout, self.focused, fl)
    }
}

/// A chain of parents that comes to an end, and where.
proof fn lemma_end(t: Tree, start: NodeId) -> (k: nat)
    requires
        rooted(t),
    ensures
        ancestor(t, start, k) is None,
{
    if t.nodes.dom().contains(start) {
        assert(ends(t, start));
        choose|k: nat| #[trigger] ancestor(t, start, k) is None
    } else {
        assert(ancestor(t, start, 0) == Some(start));
        assert(ancestor(t, start, 1) is None);
        1
    }
}

proof fn lemma_none_answers(t: Tree, start: NodeId, event: Seq<char>, k: nat)
    requires
        forall|j: nat| j < k ==> !#[trigger] answers_at(t, start, event, j),
        !answers_at(t, start, event, k),
        ancestor(t, start, k + 1) is None,
    ensures
        forall|j: nat| !#[trigger] answers_at(t, start, event, j),
{
    assert forall|j: nat| !#[trigger] answers_at(t, start, event, j) by {
        if j > k {
            lemma_ancestor_ends(t, start, k + 1, j);
        }
    }
}

proof fn lemma_next_place(ring: Seq<NodeId>, focused: Option<NodeId>, forward: bool, next: int)
    requires
        ring.len() > 0,
        next == match focused {
            None => if forward {
                0
            } else {
                ring.len() - 1
            },
            Some(cur) => {
                let at = match ring.index_of_first(cur) {
                    Some(i) => i,
                    None => 0,
                };
                if forward {
                    if at + 1 == ring.len() {
                        0
                    } else {
                        at + 1
                    }
                } else if at == 0 {
                    ring.len() - 1
                } else {
                    at - 1
                }
            },
        },
    ensures
        next == next_place(ring, focused, forward),
{
    ring.index_of_first_ensures(focused->0);
    let n = ring.len() as int;
    match focused {
        Some(cur) => {
            let at = match ring.index_of_first(cur) {
                Some(i) => i,
                None => 0,
            };
            assert(0 <= at < n);
            if forward {
                if at + 1 == n {
                    assert((at + 1) % n == 0) by (nonlinear_arith)
                        requires
                            at + 1 == n,
                            n > 0,
                    ;
                } else {
                    assert((at + 1) % n == at + 1) by (nonlinear_arith)
                        requires
                            0 <= at + 1 < n,
                    ;
                }
            } else if at == 0 {
                assert((n - 1) % n == n - 1) by (nonlinear_arith)
                    requires
                        n > 0,
                ;
            } else {
                assert((at + n - 1) % n == at - 1) by (nonlinear_arith)
                    requires
                        0 < at < n,
                ;
            }
        },
        None => {},
    }
}

} // verus!
