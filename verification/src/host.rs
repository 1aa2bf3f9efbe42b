//! A live interface on a canvas: the software renderer paints it into a buffer of pixels.
use vstd::prelude::*;

use crate::canvas::{blank, converts, light, over, painted_all, CanvasRenderer, LightOp, Over};
use crate::dsl::{parse, parsed, ErrorModel, ParseError};
use crate::env::window_env;
use crate::float::{int32, of_int, steady, unit, FloatOp, Unit};
use crate::input::{InputEvent, InputModel, PointerButton};
use crate::ir::{DocModel, Document, Origin};
use crate::layout::{Frame, Plan};
use crate::motion::{sprung, stepper, steps};
use crate::node::NodeId;
use crate::paint::scene_of;
use crate::runtime::{
    dispatched, engages, handles, handles_input, laid_out, reacted, relaid, sound, Runtime, RuntimeModel, Spring,
    SpringState,
};
use crate::scene::cmd_models;
use crate::session::begins;
use crate::store::Store;
use crate::walk::{finite, rooted};

verus! {

/// A live interface and the canvas that it is painted on.
#[derive(Debug)]
pub struct CanvasHost {
    rt: Runtime,
    renderer: CanvasRenderer,
    width: u32,
    height: u32,
}

/// The pixels of a live interface on a canvas of the given size.
pub open spec fn picture(fl: Unit, o: Over, m: RuntimeModel, width: u32, height: u32) -> Seq<u8> {
    let scene = scene_of(fl, m.doc.tree, m.layout, m.layout.order.len() as int);
    painted_all(fl, o, blank(width, height), width, height, scene, scene.len() as int)
}

/// The size of a canvas as that of a viewport.
pub open spec fn viewport_of(fl: Unit, width: u32, height: u32) -> (u32, u32) {
    (int32(fl, width as i64), int32(fl, height as i64))
}

impl CanvasHost {
    /// The live interface.
    pub closed spec fn interface(&self) -> Runtime {
        self.rt
    }

    /// The canvas.
    pub closed spec fn canvas(&self) -> CanvasRenderer {
        self.renderer
    }

    /// How wide and how high the canvas is.
    pub closed spec fn size(&self) -> (u32, u32) {
        (self.width, self.height)
    }

    /// The interface is sound, and the canvas has the size of the host.
    pub open spec fn ready(&self) -> bool {
        &&& sound(self.interface()@)
        &&& self.canvas().sound()
        &&& self.canvas().size() == self.size()
    }

    /// The canvas shows the interface.
    pub open spec fn shows(&self, fl: Unit, o: Over) -> bool {
        self.canvas().pixels@ == picture(fl, o, self.interface()@, self.size().0, self.size().1)
    }

    /// A host around a document, painted.
    pub fn new<F: Fn(&FloatOp) -> Option<u64>, E: Fn(&Plan) -> Option<Vec<Frame>>, L: Fn(LightOp) -> u32>(
        doc: Document,
        width: u32,
        height: u32,
        fl: &F,
        engine: &E,
        l: &L,
    ) -> (r: CanvasHost)
        requires
            finite(doc@.tree),
            rooted(doc@.tree),
            width * height * 4 <= u32::MAX,
            steady(*fl),
            engages(*engine),
            converts(*l),
        ensures
            r.ready(),
            r.size() == (width, height),
            begins(*engine, unit(*fl), doc@, viewport_of(unit(*fl), width, height), r.interface()@),
            r.shows(unit(*fl), over(unit(*fl), light(*l))),
    {
        let viewport = (of_int(fl, width as i64), of_int(fl, height as i64));
        let rt = Runtime::new(doc, viewport, fl, engine);
        let renderer = CanvasRenderer::new(width, height);
        let mut host = CanvasHost { rt, renderer, width, height };
        host.render(fl, l);
        host
    }

    /// A host from a source text, painted.
    pub fn from_uni<F: Fn(&FloatOp) -> Option<u64>, E: Fn(&Plan) -> Option<Vec<Frame>>, L: Fn(LightOp) -> u32>(
        src: &str,
        width: u32,
        height: u32,
        fl: &F,
        engine: &E,
        l: &L,
    ) -> (r: Result<CanvasHost, ParseError>)
        requires
            width * height * 4 <= u32::MAX,
            steady(*fl),
            engages(*engine),
            converts(*l),
        ensures
            match r {
                Ok(h) => {
                    &&& h.ready()
                    &&& h.size() == (width, height)
                    &&& parsed(src@, unit(*fl)) is Ok
                    &&& begins(
                        *engine,
                        unit(*fl),
                        parsed(src@, unit(*fl))->Ok_0,
                        viewport_of(unit(*fl), width, height),
                        h.interface()@,
                    )
                    &&& h.shows(unit(*fl), over(unit(*fl), light(*l)))
                },
                Err(e) => parsed(src@, unit(*fl)) == Err::<DocModel, ErrorModel>(e@),
            },
    {
        match parse(src, fl) {
            Ok(doc) => Ok(CanvasHost::new(doc, width, height, fl, engine, l)),
            Err(e) => Err(e),
        }
    }

    /// The live interface.
    pub fn runtime(&self) -> (r: &Runtime)
        ensures
            *r == self.interface(),
    {
        &self.rt
    }

    /// The live interface, to change.
    pub fn runtime_mut(&mut self) -> (r: &mut Runtime)
        ensures
            *r == old(self).interface(),
            final(self).interface() == *final(r),
            final(self).canvas() == old(self).canvas(),
            final(self).size() == old(self).size(),
    {
        &mut self.rt
    }

    /// Lets the springs go on for `dt` seconds and paints. `true` exactly when some go on.
    pub fn tick<
        F: Fn(&FloatOp) -> Option<u64>,
        E: Fn(&Plan) -> Option<Vec<Frame>>,
        G: Fn(Spring, SpringState, u32, u32) -> (SpringState, bool),
        L: Fn(LightOp) -> u32,
    >(&mut self, dt: u32, fl: &F, engine: &E, g: &G, l: &L) -> (r: bool)
        requires
            old(self).ready(),
            steady(*fl),
            engages(*engine),
            steps(*g),
            converts(*l),
        ensures
            final(self).ready(),
            final(self).size() == old(self).size(),
            if old(self).interface()@.springs.len() == 0 {
                final(self).interface()@ == old(self).interface()@
            } else {
                relaid(*engine, unit(*fl), sprung(stepper(*g), old(self).interface()@, dt), final(self).interface()@)
            },
            r == (final(self).interface()@.springs.len() > 0),
            final(self).shows(unit(*fl), over(unit(*fl), light(*l))),
    {
        let animating = self.rt.tick_animations(dt, fl, engine, g);
        self.render(fl, l);
        animating
    }

    /// Takes a left press at a point in on behalf of a person, and paints where it was handled.
    pub fn pointer_down<
        F: Fn(&FloatOp) -> Option<u64>,
        E: Fn(&Plan) -> Option<Vec<Frame>>,
        H: FnOnce(&str, &Store, Origin) -> Option<Store>,
        L: Fn(LightOp) -> u32,
    >(&mut self, x: u32, y: u32, fl: &F, engine: &E, handlers: H, l: &L) -> (r: bool)
        requires
            old(self).ready(),
            steady(*fl),
            engages(*engine),
            handles_input(
                handlers,
                unit(*fl),
                old(self).interface()@,
                InputModel::PointerDown { x, y, button: PointerButton::Left },
            ),
            converts(*l),
        ensures
            final(self).ready(),
            final(self).size() == old(self).size(),
            reacted(
                *engine,
                handlers,
                unit(*fl),
                old(self).interface()@,
                InputModel::PointerDown { x, y, button: PointerButton::Left },
                final(self).interface()@,
                r,
            ),
            if r {
                final(self).shows(unit(*fl), over(unit(*fl), light(*l)))
            } else {
                final(self).canvas() == old(self).canvas()
            },
    {
        let press = InputEvent::PointerDown { x, y, button: PointerButton::Left };
        let handled = self.rt.on_input(&press, fl, engine, handlers);
        if handled {
            self.render(fl, l);
        }
        handled
    }

    /// Fires `event` on a node on behalf of an assistant, and paints where it was handled.
    pub fn ai_fire<
        F: Fn(&FloatOp) -> Option<u64>,
        E: Fn(&Plan) -> Option<Vec<Frame>>,
        H: FnOnce(&str, &Store, Origin) -> Option<Store>,
        L: Fn(LightOp) -> u32,
    >(&mut self, target: NodeId, event: &str, fl: &F, engine: &E, handlers: H, l: &L) -> (r: bool)
        requires
            old(self).ready(),
            steady(*fl),
            engages(*engine),
            handles(handlers, old(self).interface()@, target, event@, Origin::Ai),
            converts(*l),
        ensures
            final(self).ready(),
            final(self).size() == old(self).size(),
            dispatched(
                *engine,
                handlers,
                unit(*fl),
                old(self).interface()@,
                target,
                event@,
                Origin::Ai,
                final(self).interface()@,
                r,
            ),
            if r {
                final(self).shows(unit(*fl), over(unit(*fl), light(*l)))
            } else {
                final(self).canvas() == old(self).canvas()
            },
    {
        let fired = self.rt.ai_fire(target, event, fl, engine, handlers);
        if fired {
            self.render(fl, l);
        }
        fired
    }

    /// Makes the canvas and the viewport another size, and paints.
    pub fn resize<F: Fn(&FloatOp) -> Option<u64>, E: Fn(&Plan) -> Option<Vec<Frame>>, L: Fn(LightOp) -> u32>(
        &mut self,
        width: u32,
        height: u32,
        fl: &F,
        engine: &E,
        l: &L,
    )
        requires
            old(self).ready(),
            width * height * 4 <= u32::MAX,
            steady(*fl),
            engages(*engine),
            converts(*l),
        ensures
            final(self).ready(),
            final(self).size() == (width, height),
            laid_out(
                *engine,
                unit(*fl),
                (RuntimeModel {
                    viewport: viewport_of(unit(*fl), width, height),
                    env: window_env(
                        viewport_of(unit(*fl), width, height).0,
                        viewport_of(unit(*fl), width, height).1,
                    ),
                    ..old(self).interface()@
                }),
                final(self).interface()@,
            ),
            final(self).shows(unit(*fl), over(unit(*fl), light(*l))),
    {
        self.width = width;
        self.height = height;
        self.renderer.resize(width, height);
        self.rt.set_viewport((of_int(fl, width as i64), of_int(fl, height as i64)), fl, engine);
        self.render(fl, l);
    }

    /// The pixels, row by row from the top, four bytes each.
    pub fn pixels(&self) -> (r: &[u8])
        ensures
            r@ == self.canvas().pixels@,
    {
        self.renderer.pixels.as_slice()
    }

    /// Paints the interface.
    pub fn render<F: Fn(&FloatOp) -> Option<u64>, L: Fn(LightOp) -> u32>(&mut self, fl: &F, l: &L)
        requires
            old(self).ready(),
            steady(*fl),
            converts(*l),
        ensures
            final(self).ready(),
            final(self).interface() == old(self).interface(),
            final(self).size() == old(self).size(),
            final(self).shows(unit(*fl), over(unit(*fl), light(*l))),
    {
        let scene = self.rt.scene(fl);
        assert(cmd_models(scene@).len() == scene@.len());
        let _done = self.renderer.render(&scene, fl, l);
    }
}

} // verus!
