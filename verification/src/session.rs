//! How a live interface begins: around a document, or from a source text.
use vstd::prelude::*;

use crate::dsl::{parse, parsed, ErrorModel, ParseError};
use crate::env::{window_env, Env};
use crate::float::{steady, unit, FloatOp, Unit};
use crate::id_set::{IdSet, PropTable};
use crate::ir::{DocModel, Document};
use crate::layout::{Frame, Layout, Plan};
use crate::motion::seeded;
use crate::runtime::{
    engages, implicit_models, initial, recognizer_models, settled, sound, spring_models, texts, Runtime,
    RuntimeModel,
};
use crate::store::Store;
use crate::walk::{finite, rooted};

verus! {

/// What a live interface around a document may begin as: laid out for the viewport, with nothing
/// in its state, and with everything that is there taken as seen.
pub open spec fn begins<E: Fn(&Plan) -> Option<Vec<Frame>>>(
    e: E,
    fl: Unit,
    d: DocModel,
    viewport: (u32, u32),
    b: RuntimeModel,
) -> bool {
    exists|m: RuntimeModel| #[trigger]
        settled(e, fl, initial(d, viewport, window_env(viewport.0, viewport.1)), m) && b == seeded(fl, m)
}

impl Runtime {
    /// A live interface around a document for a viewport, without a window.
    pub fn new<F: Fn(&FloatOp) -> Option<u64>, E: Fn(&Plan) -> Option<Vec<Frame>>>(
        doc: Document,
        viewport: (u32, u32),
        fl: &F,
        engine: &E,
    ) -> (r: Runtime)
        requires
            finite(doc@.tree),
            rooted(doc@.tree),
            steady(*fl),
            engages(*engine),
        ensures
            begins(*engine, unit(*fl), doc@, viewport, r@),
            sound(r@),
    {
        let ghost d = doc@;
        let mut rt = Runtime {
            doc,
            store: Store::new(),
            layout: Layout::empty((0, 0)),
            viewport,
            cursor: (0, 0),
            env: Env::for_window(viewport.0, viewport.1),
            springs: Vec::new(),
            implicit: Vec::new(),
            prop_snapshot: PropTable::new(),
            presence_snapshot: IdSet::new(),
            presented_snapshot: IdSet::new(),
            focused: None,
            dirty: IdSet::new(),
            audit_cursor: 0,
            nav_stack: Vec::new(),
            gestures: Vec::new(),
        };
        proof {
            assert(spring_models(rt.springs@) =~= Seq::empty());
            assert(implicit_models(rt.implicit@) =~= Seq::empty());
            assert(recognizer_models(rt.gestures@) =~= Seq::empty());
            assert(texts(rt.nav_stack@) =~= Seq::empty());
            assert(rt@ == initial(d, viewport, window_env(viewport.0, viewport.1)));
        }
        rt.settle(fl, engine);
        let ghost m = rt@;
        assert(settled(*engine, unit(*fl), initial(d, viewport, window_env(viewport.0, viewport.1)), m));
        rt.seed_animation_snapshots(fl);
        rt
    }

    /// A live interface from a source text.
    pub fn from_uni<F: Fn(&FloatOp) -> Option<u64>, E: Fn(&Plan) -> Option<Vec<Frame>>>(
        src: &str,
        viewport: (u32, u32),
        fl: &F,
        engine: &E,
    ) -> (r: Result<Runtime, ParseError>)
        requires
            steady(*fl),
            engages(*engine),
        ensures
            match r {
                Ok(rt) => parsed(src@, unit(*fl)) is Ok && begins(
                    *engine,
                    unit(*fl),
                    parsed(src@, unit(*fl))->Ok_0,
                    viewport,
                    rt@,
                ) && sound(rt@),
                Err(e) => parsed(src@, unit(*fl)) == Err::<DocModel, ErrorModel>(e@),
            },
    {
        match parse(src, fl) {
            Ok(doc) => Ok(Runtime::new(doc, viewport, fl, engine)),
            Err(e) => Err(e),
        }
    }
}

} // verus!
