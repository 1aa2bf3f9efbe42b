//! What the passes of a frame hold of the commands of a scene.
use vstd::prelude::*;

use crate::float::{FloatQuery, Unit};
use crate::frame::{
    clear_from, covers, fill_job, fill_jobs, linear_color, next_panel, passes_from,
    text_job, text_jobs, FillJob, PassModel, Surface, TextJobModel,
};
use crate::gesture_law::{at_most, lemma_at_most};
use crate::place_law::said;
use crate::scene::CmdModel;

verus! {

/// The fills of passes, one after the other.
pub open spec fn all_fills(ps: Seq<PassModel>) -> Seq<FillJob>
    decreases ps.len(),
{
    if ps.len() == 0 {
        Seq::empty()
    } else {
        ps[0].fills + all_fills(ps.skip(1))
    }
}

/// The texts of passes, one after the other.
pub open spec fn all_texts(ps: Seq<PassModel>) -> Seq<TextJobModel>
    decreases ps.len(),
{
    if ps.len() == 0 {
        Seq::empty()
    } else {
        ps[0].texts + all_texts(ps.skip(1))
    }
}

proof fn lemma_fills_split(fl: Unit, cmds: Seq<CmdModel>, a: int, b: int, c: int)
    requires
        a <= b <= c,
    ensures
        fill_jobs(fl, cmds, a, c) == fill_jobs(fl, cmds, a, b) + fill_jobs(fl, cmds, b, c),
    decreases c - b,
{
    if b < c {
        lemma_fills_split(fl, cmds, a, b, c - 1);
        if let Some(j) = fill_job(fl, cmds[c - 1], (c - 1) as usize) {
            let x = fill_jobs(fl, cmds, a, b);
            let y = fill_jobs(fl, cmds, b, c - 1);
            assert((x + y).push(j) =~= x + y.push(j));
        }
    } else {
        assert(fill_jobs(fl, cmds, a, b) + Seq::<FillJob>::empty() =~= fill_jobs(fl, cmds, a, b));
    }
}

proof fn lemma_texts_split(fl: Unit, s: Surface, cmds: Seq<CmdModel>, a: int, b: int, c: int)
    requires
        a <= b <= c,
    ensures
        text_jobs(fl, s, cmds, a, c) == text_jobs(fl, s, cmds, a, b) + text_jobs(fl, s, cmds, b, c),
    decreases c - b,
{
    if b < c {
        lemma_texts_split(fl, s, cmds, a, b, c - 1);
        if let Some(j) = text_job(fl, s, cmds[c - 1]) {
            let x = text_jobs(fl, s, cmds, a, b);
            let y = text_jobs(fl, s, cmds, b, c - 1);
            assert((x + y).push(j) =~= x + y.push(j));
        }
    } else {
        assert(text_jobs(fl, s, cmds, a, b) + Seq::<TextJobModel>::empty() =~= text_jobs(fl, s, cmds, a, b));
    }
}

proof fn lemma_next_panel(cmds: Seq<CmdModel>, i: int)
    requires
        0 <= i <= cmds.len(),
    ensures
        i <= next_panel(cmds, i) <= cmds.len(),
        next_panel(cmds, i) < cmds.len() ==> cmds[next_panel(cmds, i)] is FrostedRect,
    decreases cmds.len() - i,
{
    if i < cmds.len() && !(cmds[i] is FrostedRect) {
        lemma_next_panel(cmds, i + 1);
    }
}

#[verifier::rlimit(60)]
proof fn lemma_fills(fl: Unit, s: Surface, cmds: Seq<CmdModel>, i: int)
    requires
        0 <= i <= cmds.len(),
    ensures
        all_fills(passes_from(fl, s, cmds, i)) == fill_jobs(fl, cmds, i, cmds.len() as int),
    decreases cmds.len() - i,
{
    let j = next_panel(cmds, i);
    let n = cmds.len() as int;
    lemma_next_panel(cmds, i);
    let ps = passes_from(fl, s, cmds, i);
    let none = Seq::<FillJob>::empty();
    if j < n {
        lemma_fills(fl, s, cmds, j + 1);
        assert(ps.skip(1) =~= passes_from(fl, s, cmds, j + 1));
        lemma_fills_split(fl, cmds, i, j, n);
        lemma_fills_split(fl, cmds, j, j + 1, n);
        assert(fill_jobs(fl, cmds, j, j) == none);
        assert(fill_jobs(fl, cmds, j, j + 1) == none);
        assert(none + fill_jobs(fl, cmds, j + 1, n) =~= fill_jobs(fl, cmds, j + 1, n));
    } else {
        assert(ps.skip(1) =~= Seq::<PassModel>::empty());
        assert(all_fills(ps.skip(1)) == none);
        assert(ps[0].fills + none =~= ps[0].fills);
    }
}

#[verifier::rlimit(60)]
proof fn lemma_texts(fl: Unit, s: Surface, cmds: Seq<CmdModel>, i: int)
    requires
        0 <= i <= cmds.len(),
    ensures
        all_texts(passes_from(fl, s, cmds, i)) == text_jobs(fl, s, cmds, i, cmds.len() as int),
    decreases cmds.len() - i,
{
    let j = next_panel(cmds, i);
    let n = cmds.len() as int;
    lemma_next_panel(cmds, i);
    let ps = passes_from(fl, s, cmds, i);
    let none = Seq::<TextJobModel>::empty();
    if j < n {
        lemma_texts(fl, s, cmds, j + 1);
        assert(ps.skip(1) =~= passes_from(fl, s, cmds, j + 1));
        lemma_texts_split(fl, s, cmds, i, j, n);
        lemma_texts_split(fl, s, cmds, j, j + 1, n);
        assert(text_jobs(fl, s, cmds, j, j) == none);
        assert(text_jobs(fl, s, cmds, j, j + 1) == none);
        assert(none + text_jobs(fl, s, cmds, j + 1, n) =~= text_jobs(fl, s, cmds, j + 1, n));
    } else {
        assert(ps.skip(1) =~= Seq::<PassModel>::empty());
        assert(all_texts(ps.skip(1)) == none);
        assert(ps[0].texts + none =~= ps[0].texts);
    }
}

/// Nothing of a scene is lost between the passes: their fills, one after the other, are the fills of
/// all commands in the order of the scene, and so are their texts.
pub proof fn law_passes_hold_every_job(fl: Unit, s: Surface, cmds: Seq<CmdModel>)
    ensures
        all_fills(passes_from(fl, s, cmds, 0)) == fill_jobs(fl, cmds, 0, cmds.len() as int),
        all_texts(passes_from(fl, s, cmds, 0)) == text_jobs(fl, s, cmds, 0, cmds.len() as int),
{
    lemma_fills(fl, s, cmds, 0);
    lemma_texts(fl, s, cmds, 0);
}

/// A rectangle with an extent is filled from its corner to its corner and its size, in its own
/// colour and rotation; one without is not.
pub proof fn law_rectangle_is_filled_in_its_frame(fl: Unit, c: CmdModel, i: usize)
    ensures
        c matches CmdModel::FilledRect { x, y, w, h, color, corner_radius, rotation } ==> {
            &&& at_most(w, 0) || at_most(h, 0) ==> fill_job(fl, c, i) is None
            &&& !at_most(w, 0) && !at_most(h, 0) ==> (fill_job(fl, c, i) matches Some(FillJob::Rect(j)) && {
                &&& j.min == (x, y)
                &&& j.max.0 == said(fl, FloatQuery::AddSingle { x, y: w })
                &&& j.max.1 == said(fl, FloatQuery::AddSingle { x: y, y: h })
                &&& j.rotation == rotation
                &&& j.color == linear_color(fl, color)
            })
        },
{
    if let CmdModel::FilledRect { w, h, .. } = c {
        lemma_at_most(w, 0);
        lemma_at_most(h, 0);
    }
}

/// A shape with an extent and a path are filled by their place in the scene; texts and panels are
/// not filled.
pub proof fn law_shapes_and_paths_are_filled(fl: Unit, c: CmdModel, i: usize)
    ensures
        c matches CmdModel::FilledShape { w, h, .. } ==> fill_job(fl, c, i) == if at_most(w, 0) || at_most(h, 0) {
            None
        } else {
            Some(FillJob::Shape(i))
        },
        c is Path ==> fill_job(fl, c, i) == Some(FillJob::Path(i)),
        c is Text || c is FrostedRect ==> fill_job(fl, c, i) is None,
{
    if let CmdModel::FilledShape { w, h, .. } = c {
        lemma_at_most(w, 0);
        lemma_at_most(h, 0);
    }
}

/// A text stands at its place at the scale of the surface, as large as it asks for, and nothing but
/// a text is drawn as one.
pub proof fn law_text_stands_at_its_place(fl: Unit, s: Surface, c: CmdModel)
    ensures
        c matches CmdModel::Text { x, y, content, size, color } ==> (text_job(fl, s, c) matches Some(j) && {
            &&& j.content == content
            &&& j.left == said(fl, FloatQuery::MulSingle { x, y: s.scale })
            &&& j.top == said(fl, FloatQuery::MulSingle { x: y, y: s.scale })
            &&& j.size == size
        }),
        !(c is Text) ==> text_job(fl, s, c) is None,
{
}

/// The command is a rectangle that leaves nothing of the surface free.
pub open spec fn fills_all(s: Surface, c: CmdModel) -> bool {
    c matches CmdModel::FilledRect { x, y, w, h, .. } && at_most(x, 0) && at_most(y, 0) && at_most(
        s.logical_width,
        w,
    ) && at_most(s.logical_height, h)
}

/// The surface is cleared to the colour of the first command that fills all of it, and to none
/// where no command does.
pub proof fn law_surface_is_cleared_to_what_fills_it(fl: Unit, s: Surface, cmds: Seq<CmdModel>, i: int, k: int)
    requires
        0 <= i <= k <= cmds.len(),
        forall|j: int| i <= j < k ==> !fills_all(s, #[trigger] cmds[j]),
        k < cmds.len() ==> fills_all(s, cmds[k]),
    ensures
        clear_from(fl, s, cmds, i) == if k < cmds.len() {
            Some(linear_color(fl, cmds[k]->FilledRect_color))
        } else {
            None
        },
    decreases k - i,
{
    if i < cmds.len() {
        lemma_covers(s, cmds[i]);
    }
    if i < k {
        assert(!fills_all(s, cmds[i]));
        law_surface_is_cleared_to_what_fills_it(fl, s, cmds, i + 1, k);
    }
}

proof fn lemma_covers(s: Surface, c: CmdModel)
    ensures
        covers(s, c) == fills_all(s, c),
{
    if let CmdModel::FilledRect { x, y, w, h, .. } = c {
        lemma_at_most(x, 0);
        lemma_at_most(y, 0);
        lemma_at_most(s.logical_width, w);
        lemma_at_most(s.logical_height, h);
    }
}

} // verus!
