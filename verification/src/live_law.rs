//! Where the focus goes, what a moving property shows, and what a window does to what it shows.
use vstd::prelude::*;

use crate::animation::{done, presented, scalar, shown, EntryModel, Sampler};
use crate::env::window_env;
use crate::float::{FloatQuery, Unit};
use crate::gesture_law::{at_most, lemma_at_most, numeric};
use crate::host::viewport_of as canvas_viewport;
use crate::ir::{has_callback, EditModel, MutationModel, Origin, Tree};
use crate::layout::{Frame, Plan};
use crate::motion::aged;
use crate::node::{NodeId, NodeModel};
use crate::place_law::said;
use crate::runtime::{
    focus_ring, focusable, gone_back, navigated, refocused, with_presented, RuntimeModel, Spring, SpringState,
};
use crate::scene::angular_offset;
use crate::value::ValueModel;
use crate::window::{signalled, viewport_of, WindowSignal};

verus! {

proof fn lemma_ring(t: Tree, order: Seq<NodeId>, k: int, x: NodeId)
    requires
        0 <= k <= order.len(),
    ensures
        focusable(t, order, k).contains(x) <==> order.take(k).contains(x) && has_callback(t, x, "click"@),
    decreases k,
{
    if k > 0 {
        lemma_ring(t, order, k - 1, x);
        let before = focusable(t, order, k - 1);
        let last = order[k - 1];
        let p = order.take(k - 1);
        let q = order.take(k);
        assert(q =~= p.push(last));
        assert(q[k - 1] == last);
        if p.contains(x) {
            let i = p.index_of(x);
            assert(q[i] == x);
        }
        if q.contains(x) && x != last {
            let i = q.index_of(x);
            assert(p[i] == x);
        }
        if has_callback(t, last, "click"@) {
            let after = before.push(last);
            assert(after[before.len() as int] == last);
            if before.contains(x) {
                let i = before.index_of(x);
                assert(after[i] == x);
            }
            if after.contains(x) && x != last {
                let i = after.index_of(x);
                assert(before[i] == x);
            }
        }
    } else {
        assert(order.take(0) =~= Seq::<NodeId>::empty());
    }
}

/// The place in an order from which a place of its ring comes.
spec fn came_from(t: Tree, order: Seq<NodeId>, k: int, i: int) -> int
    decreases k,
{
    if k <= 0 {
        0
    } else if has_callback(t, order[k - 1], "click"@) && i == focusable(t, order, k - 1).len() {
        k - 1
    } else {
        came_from(t, order, k - 1, i)
    }
}

proof fn lemma_came_from(t: Tree, order: Seq<NodeId>, k: int, i: int, j: int)
    requires
        0 <= k <= order.len(),
        0 <= i < j < focusable(t, order, k).len(),
    ensures
        0 <= came_from(t, order, k, i) < came_from(t, order, k, j) < k,
        order[came_from(t, order, k, i)] == focusable(t, order, k)[i],
        order[came_from(t, order, k, j)] == focusable(t, order, k)[j],
    decreases k,
{
    let n = focusable(t, order, k - 1).len();
    if has_callback(t, order[k - 1], "click"@) {
        if j < n {
            lemma_came_from(t, order, k - 1, i, j);
        } else {
            lemma_one_place(t, order, k - 1, i);
        }
    } else {
        lemma_came_from(t, order, k - 1, i, j);
    }
}

proof fn lemma_one_place(t: Tree, order: Seq<NodeId>, k: int, i: int)
    requires
        0 <= k <= order.len(),
        0 <= i < focusable(t, order, k).len(),
    ensures
        0 <= came_from(t, order, k, i) < k,
        order[came_from(t, order, k, i)] == focusable(t, order, k)[i],
    decreases k,
{
    let n = focusable(t, order, k - 1).len();
    if !(has_callback(t, order[k - 1], "click"@) && i == n) {
        lemma_one_place(t, order, k - 1, i);
    }
}

/// The focus can go to exactly the nodes of the layout that can be clicked, and in the order of the
/// layout.
pub proof fn law_focus_follows_the_layout(m: RuntimeModel, x: NodeId, i: int, j: int) -> (r: (int, int))
    requires
        0 <= i < j < focus_ring(m).len(),
    ensures
        focus_ring(m).contains(x) <==> m.layout.order.contains(x) && has_callback(m.doc.tree, x, "click"@),
        0 <= r.0 < r.1 < m.layout.order.len(),
        m.layout.order[r.0] == focus_ring(m)[i],
        m.layout.order[r.1] == focus_ring(m)[j],
{
    let order = m.layout.order;
    let n = order.len() as int;
    lemma_ring(m.doc.tree, order, n, x);
    assert(order.take(n) =~= order);
    lemma_came_from(m.doc.tree, order, n, i, j);
    (came_from(m.doc.tree, order, n, i), came_from(m.doc.tree, order, n, j))
}

/// The focus goes on to the next node of its ring and back to the one before; without a focus it
/// begins at the first, and backwards at the last.
pub proof fn law_focus_goes_on_by_one(m: RuntimeModel, i: int)
    requires
        focus_ring(m).no_duplicates(),
        0 <= i,
        i + 1 < focus_ring(m).len(),
    ensures
        m.focused == Some(focus_ring(m)[i]) ==> refocused(m, true) == (RuntimeModel {
            focused: Some(focus_ring(m)[i + 1]),
            ..m
        }),
        m.focused == Some(focus_ring(m)[i + 1]) ==> refocused(m, false) == (RuntimeModel {
            focused: Some(focus_ring(m)[i]),
            ..m
        }),
        m.focused is None ==> refocused(m, true).focused == Some(focus_ring(m)[0]) && refocused(m, false).focused
            == Some(focus_ring(m).last()),
{
    let ring = focus_ring(m);
    let n = ring.len() as int;
    lemma_first(ring, i);
    lemma_first(ring, i + 1);
    assert((i + 1) % n == i + 1 && (i + 1 + n - 1) % n == i) by (nonlinear_arith)
        requires
            0 <= i,
            i + 1 < n,
    ;
}

proof fn lemma_first(s: Seq<NodeId>, i: int)
    requires
        s.no_duplicates(),
        0 <= i < s.len(),
    ensures
        s.index_of_first(s[i]) == Some(i),
{
    s.index_of_first_ensures(s[i]);
}

/// A property that moves shows where it began and as much of the way to its target as its curve has
/// come; from the end of its time on it shows its target.
pub proof fn law_property_moves_to_its_target(fl: Unit, s: Sampler, e: EntryModel)
    ensures
        at_most(e.anim.duration, e.elapsed) ==> shown(fl, s, e) == e.to,
        !at_most(e.anim.duration, e.elapsed) ==> shown(fl, s, e) == said(
            fl,
            FloatQuery::AddSingle {
                x: e.from,
                y: said(
                    fl,
                    FloatQuery::MulSingle {
                        x: said(fl, FloatQuery::SubSingle { x: e.to, y: e.from }),
                        y: s(e.anim, e.elapsed),
                    },
                ),
            },
        ),
        done(e) <==> at_most(e.anim.duration, e.elapsed),
{
    lemma_at_most(e.anim.duration, e.elapsed);
}

/// Time that passes is added to that of an animation and changes nothing else of it.
pub proof fn law_animation_ages_by_the_time(fl: Unit, e: EntryModel, dt: u32)
    ensures
        aged(fl, e, dt) == (EntryModel { elapsed: said(fl, FloatQuery::AddSingle { x: e.elapsed, y: dt }), ..e }),
{
}

/// A length, a double, an integer and a truth are numbers to an animation; nothing else is.
pub proof fn law_numbers_can_be_animated(fl: Unit, v: ValueModel)
    ensures
        scalar(fl, v) == match v {
            ValueModel::Px(x) => Some(x),
            ValueModel::Float(x) => Some(said(fl, FloatQuery::Narrow { double: x })),
            ValueModel::Int(x) => Some(said(fl, FloatQuery::FromIntSingle { value: x })),
            ValueModel::Bool(true) => Some(0x3F80_0000),
            ValueModel::Bool(false) => Some(0),
            _ => None,
        },
{
}

/// A node is presented where its property says so: by truth, or by a number other than zero.
pub proof fn law_node_is_presented_where_it_says_so(fl: Unit, n: NodeModel)
    ensures
        !n.props.dom().contains("presented"@) ==> !presented(fl, n),
        n.props.dom().contains("presented"@) ==> {
            let v = n.props["presented"@];
            &&& v matches ValueModel::Bool(b) ==> presented(fl, n) == b
            &&& v matches ValueModel::Px(x) ==> (presented(fl, n) <==> !numeric(x) || x % 0x8000_0000 != 0)
            &&& v is Text || v is Color || v is List ==> !presented(fl, n)
        },
{
}

/// A window that gets another size is shown at that size, by the scale, and everything in it is laid
/// out anew; what else it is told leaves all as it is, but for a frame that moves springs on.
pub proof fn law_window_shows_its_size<
    E: Fn(&Plan) -> Option<Vec<Frame>>,
    G: Fn(Spring, SpringState, u32, u32) -> (SpringState, bool),
>(e: E, g: G, fl: Unit, a: RuntimeModel, signal: WindowSignal, scale: u64, b: RuntimeModel)
    requires
        signalled(e, g, fl, a, signal, scale, b),
    ensures
        signal matches WindowSignal::Resized { width, height } ==> {
            let factor = said(fl, FloatQuery::Narrow { double: scale });
            let w = said(
                fl,
                FloatQuery::DivSingle {
                    x: said(fl, FloatQuery::FromIntSingle { value: width as i64 }),
                    y: factor,
                },
            );
            let h = said(
                fl,
                FloatQuery::DivSingle {
                    x: said(fl, FloatQuery::FromIntSingle { value: height as i64 }),
                    y: factor,
                },
            );
            &&& b.viewport == (w, h) && viewport_of(fl, width, height, scale) == (w, h)
            &&& b.env == window_env(w, h)
            &&& b.doc == a.doc && b.state == a.state && b.focused == a.focused && b.cursor == a.cursor
            &&& b.dirty == Set::<NodeId>::empty()
        },
        !(signal is Resized) && !(signal is RedrawRequested) ==> b == a,
        signal is RedrawRequested && a.springs.len() == 0 ==> b == a,
{
}

/// The viewport of a canvas is as many units wide and high as the canvas has pixels.
pub proof fn law_canvas_is_its_viewport(fl: Unit, width: u32, height: u32)
    ensures
        canvas_viewport(fl, width, height) == (
            said(fl, FloatQuery::FromIntSingle { value: width as i64 }),
            said(fl, FloatQuery::FromIntSingle { value: height as i64 }),
        ),
{
}

/// The offset of a point on a gradient that turns is its angle over a full turn, from zero on.
pub proof fn law_angular_gradient_goes_round(fl: Unit, center: (u32, u32), u: u32, v: u32)
    ensures
        ({
            let turned = said(
                fl,
                FloatQuery::DivSingle {
                    x: said(
                        fl,
                        FloatQuery::AngleSingle {
                            y: said(fl, FloatQuery::SubSingle { x: v, y: center.1 }),
                            x: said(fl, FloatQuery::SubSingle { x: u, y: center.0 }),
                        },
                    ),
                    y: 0x40C9_0FDB,
                },
            );
            &&& numeric(turned) && !at_most(0, turned) ==> angular_offset(fl, center, u, v) == said(
                fl,
                FloatQuery::AddSingle { x: turned, y: 0x3F80_0000 },
            )
            &&& at_most(0, turned) ==> angular_offset(fl, center, u, v) == turned
        }),
{
    let turned = said(
        fl,
        FloatQuery::DivSingle {
            x: said(
                fl,
                FloatQuery::AngleSingle {
                    y: said(fl, FloatQuery::SubSingle { x: v, y: center.1 }),
                    x: said(fl, FloatQuery::SubSingle { x: u, y: center.0 }),
                },
            ),
            y: 0x40C9_0FDB,
        },
    );
    lemma_at_most(0, turned);
    lemma_at_most(turned, 0);
}

/// Going somewhere, going back, presenting and dismissing are logged on the root, by who asked for it
/// and with what was asked, behind all that was logged before; a document without a root logs none
/// of them. Each counts as one change of the state.
pub proof fn law_navigation_is_logged(m: RuntimeModel, word: Seq<char>, origin: Origin)
    requires
        m.doc.tree.root matches Some(root) ==> m.doc.tree.nodes.dom().contains(root),
        m.ticks < u64::MAX,
    ensures
        ({
            let logged = |event: Seq<char>|
                match m.doc.tree.root {
                    Some(id) => m.doc.log.push(
                        EditModel { origin, mutation: MutationModel::Invoke { id, event } },
                    ),
                    None => m.doc.log,
                };
            &&& navigated(m, word, origin).doc.log == logged("navigate:"@ + word)
            &&& gone_back(m, origin).doc.log == logged("back"@)
            &&& with_presented(m, word, true, origin).doc.log == logged("present:"@ + word)
            &&& with_presented(m, word, false, origin).doc.log == logged("dismiss:"@ + word)
        }),
        navigated(m, word, origin).doc.tree == m.doc.tree,
        gone_back(m, origin).doc.tree == m.doc.tree,
        with_presented(m, word, true, origin).doc.tree == m.doc.tree,
        navigated(m, word, origin).ticks == m.ticks + 1,
        gone_back(m, origin).ticks == m.ticks + 1,
        with_presented(m, word, false, origin).ticks == m.ticks + 1,
        with_presented(m, word, true, origin).nav == m.nav,
{
}

} // verus!
