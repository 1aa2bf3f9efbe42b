//! What a window does with a live interface: which input goes to whom, when it is painted again,
//! and what follows from a frame.
use vstd::prelude::*;

use crate::env::window_env;
use crate::float::{div32, int32, narrow, narrow32, of_int, ratio, steady, unit, FloatOp, Unit};
use crate::input::{InputEvent, InputModel};
use crate::ir::Origin;
use crate::layout::{Frame, Plan};
use crate::motion::{sprung, stepper, steps};
use crate::node::NodeId;
use crate::renderer::RenderError;
use crate::runtime::{
    dispatched, engages, focus_ring, handled_by, handles, handles_input, laid_out, reacted, relaid, sound, Runtime, RuntimeModel,
    Spring, SpringState,
};
use crate::store::Store;
use crate::text::same;

verus! {

/// The seconds between frames until two were shown, a sixtieth.
pub const FIRST_STEP: u32 = 0x3C88_8889;

/// The key asks for the assistant.
pub open spec fn assistant_key(input: InputModel) -> bool {
    match input {
        InputModel::KeyDown { key } => key == "a"@ || key == "A"@,
        _ => false,
    }
}

/// Where an assistant clicks when it is not told.
pub open spec fn assistant_target(fl: Unit, m: RuntimeModel, r: Option<NodeId>) -> bool {
    if handled_by(fl, m, m.cursor, "click"@, None) {
        r == if focus_ring(m).len() > 0 {
            Some(focus_ring(m)[0])
        } else {
            None
        }
    } else {
        r is Some && handled_by(fl, m, m.cursor, "click"@, r)
    }
}

/// What input to a window may make of the interface; `r` where it must be painted again.
pub open spec fn window_reacted<E: Fn(&Plan) -> Option<Vec<Frame>>, H: FnOnce(&str, &Store, Origin) -> Option<Store>>(
    e: E,
    h: H,
    fl: Unit,
    a: RuntimeModel,
    input: InputModel,
    b: RuntimeModel,
    r: bool,
) -> bool {
    if assistant_key(input) {
        exists|target: Option<NodeId>| #[trigger]
            assistant_target(fl, a, target) && match target {
                Some(id) => dispatched(e, h, fl, a, id, "click"@, Origin::Ai, b, r),
                None => !r && b == a,
            }
    } else {
        reacted(e, h, fl, a, input, b, r)
    }
}

/// The handlers can be asked for the click that input to a window makes, where it makes one.
pub open spec fn handles_window_input<H: FnOnce(&str, &Store, Origin) -> Option<Store>>(
    h: H,
    fl: Unit,
    m: RuntimeModel,
    input: InputModel,
) -> bool {
    if assistant_key(input) {
        forall|id: NodeId| #[trigger]
            assistant_target(fl, m, Some(id)) ==> handles(h, m, id, "click"@, Origin::Ai)
    } else {
        handles_input(h, fl, m, input)
    }
}

/// The node that an accessibility id stands for.
pub open spec fn a11y_node(target: u64) -> NodeId {
    NodeId(
        if target == 0 {
            u64::MAX
        } else {
            (target - 1) as u64
        },
    )
}

/// What happens to a window besides input.
#[derive(Debug, Clone, Copy, PartialEq, Eq, Structural)]
pub enum WindowSignal {
    CloseRequested,
    Resized { width: u32, height: u32 },
    ScaleChanged { scale_factor: u64 },
    /// A frame is due, so many seconds after the last one.
    RedrawRequested { since_last: Option<u32> },
    Other,
}

/// What a window is told to do.
#[derive(Debug, Clone, Copy, PartialEq, Eq)]
pub struct Orders {
    pub print_log: bool,
    pub exit: bool,
    /// Set the surface up at this size and scale.
    pub resize: Option<(u32, u32, u64)>,
    /// Hand the tree to assistive technology.
    pub commit: bool,
    /// Render the scene.
    pub render: bool,
    /// Whether to come back at once or to wait for what happens next.
    pub poll: Option<bool>,
    /// Ask for a frame.
    pub redraw: bool,
}

/// Orders to do nothing.
pub open spec fn at_ease() -> Orders {
    Orders { print_log: false, exit: false, resize: None, commit: false, render: false, poll: None, redraw: false }
}

/// What a window is told to do about a signal, where `animating` says whether springs go on.
pub open spec fn orders_for(signal: WindowSignal, size: (u32, u32), scale_factor: u64, animating: bool) -> Orders {
    match signal {
        WindowSignal::CloseRequested => Orders { print_log: true, exit: true, ..at_ease() },
        WindowSignal::Resized { width, height } => Orders {
            resize: Some((width, height, scale_factor)),
            commit: true,
            redraw: true,
            ..at_ease()
        },
        WindowSignal::ScaleChanged { scale_factor: s } => Orders { resize: Some((size.0, size.1, s)), ..at_ease() },
        WindowSignal::RedrawRequested { .. } => Orders {
            render: true,
            poll: Some(animating),
            redraw: animating,
            ..at_ease()
        },
        WindowSignal::Other => at_ease(),
    }
}

/// What a signal to a window may make of the interface: another size is another viewport, and
/// time passes from frame to frame.
pub open spec fn signalled<
    E: Fn(&Plan) -> Option<Vec<Frame>>,
    G: Fn(Spring, SpringState, u32, u32) -> (SpringState, bool),
>(e: E, g: G, fl: Unit, a: RuntimeModel, signal: WindowSignal, scale_factor: u64, b: RuntimeModel) -> bool {
    match signal {
        WindowSignal::Resized { width, height } => {
            let viewport = viewport_of(fl, width, height, scale_factor);
            laid_out(
                e,
                fl,
                RuntimeModel { viewport, env: window_env(viewport.0, viewport.1), ..a },
                b,
            )
        },
        WindowSignal::RedrawRequested { since_last } => if a.springs.len() == 0 {
            b == a
        } else {
            relaid(e, fl, sprung(stepper(g), a, step_of(since_last)), b)
        },
        _ => b == a,
    }
}

impl Runtime {
    /// Takes a signal to a window in, at the size and the scale that the window has, and says what
    /// the window is to do about it.
    pub fn on_window_signal<
        F: Fn(&FloatOp) -> Option<u64>,
        E: Fn(&Plan) -> Option<Vec<Frame>>,
        G: Fn(Spring, SpringState, u32, u32) -> (SpringState, bool),
    >(&mut self, signal: WindowSignal, size: (u32, u32), scale_factor: u64, fl: &F, engine: &E, g: &G) -> (r: Orders)
        requires
            sound(old(self)@),
            steady(*fl),
            engages(*engine),
            steps(*g),
        ensures
            signalled(*engine, *g, unit(*fl), old(self)@, signal, scale_factor, final(self)@),
            r == orders_for(signal, size, scale_factor, final(self)@.springs.len() > 0),
            sound(final(self)@),
    {
        let mut orders = Orders {
            print_log: false,
            exit: false,
            resize: None,
            commit: false,
            render: false,
            poll: None,
            redraw: false,
        };
        match signal {
            WindowSignal::CloseRequested => {
                orders.print_log = true;
                orders.exit = true;
            },
            WindowSignal::Resized { width, height } => {
                self.set_viewport(window_viewport(width, height, scale_factor, fl), fl, engine);
                orders.resize = Some((width, height, scale_factor));
                orders.commit = true;
                orders.redraw = true;
            },
            WindowSignal::ScaleChanged { scale_factor: s } => {
                orders.resize = Some((size.0, size.1, s));
            },
            WindowSignal::RedrawRequested { since_last } => {
                let animating = self.tick_animations(frame_step(since_last), fl, engine, g);
                orders.render = true;
                orders.poll = Some(animating);
                orders.redraw = animating;
            },
            WindowSignal::Other => {},
        }
        orders
    }

    /// Takes input to a window in: the key `a` lets the assistant click, all else goes the way of
    /// [`Runtime::on_input`]. `true` exactly when the window must be painted again.
    pub fn on_window_input<
        F: Fn(&FloatOp) -> Option<u64>,
        E: Fn(&Plan) -> Option<Vec<Frame>>,
        H: FnOnce(&str, &Store, Origin) -> Option<Store>,
    >(&mut self, input: &InputEvent, fl: &F, engine: &E, handlers: H) -> (r: bool)
        requires
            sound(old(self)@),
            steady(*fl),
            engages(*engine),
            handles_window_input(handlers, unit(*fl), old(self)@, input@),
        ensures
            window_reacted(*engine, handlers, unit(*fl), old(self)@, input@, final(self)@, r),
            sound(final(self)@),
    {
        let assistant = match input {
            InputEvent::KeyDown { key } => same(key.as_str(), "a") || same(key.as_str(), "A"),
            _ => false,
        };
        if !assistant {
            return self.on_input(input, fl, engine, handlers);
        }
        let target = self.ai_click_target(fl);
        assert(assistant_target(unit(*fl), self@, target));
        match target {
            Some(id) => self.ai_fire(id, "click", fl, engine, handlers),
            None => false,
        }
    }

    /// A click that an assistive technology asks for, on a node by its accessibility id.
    pub fn on_a11y_click<
        F: Fn(&FloatOp) -> Option<u64>,
        E: Fn(&Plan) -> Option<Vec<Frame>>,
        H: FnOnce(&str, &Store, Origin) -> Option<Store>,
    >(&mut self, target: u64, fl: &F, engine: &E, handlers: H) -> (r: bool)
        requires
            sound(old(self)@),
            steady(*fl),
            engages(*engine),
            handles(handlers, old(self)@, a11y_node(target), "click"@, Origin::Human),
        ensures
            dispatched(
                *engine,
                handlers,
                unit(*fl),
                old(self)@,
                a11y_node(target),
                "click"@,
                Origin::Human,
                final(self)@,
                r,
            ),
            sound(final(self)@),
    {
        let id = if target == 0 {
            NodeId(u64::MAX)
        } else {
            NodeId(target - 1)
        };
        self.invoke(id, "click", Origin::Human, fl, engine, handlers)
    }
}

/// A size in pixels at a scale, in logical pixels.
pub open spec fn viewport_of(fl: Unit, width: u32, height: u32, scale_factor: u64) -> (u32, u32) {
    let scale = narrow32(fl, scale_factor);
    (div32(fl, int32(fl, width as i64), scale), div32(fl, int32(fl, height as i64), scale))
}

/// The viewport of a window of the given size in pixels at a scale.
pub fn window_viewport<F: Fn(&FloatOp) -> Option<u64>>(width: u32, height: u32, scale_factor: u64, fl: &F) -> (r: (u32, u32))
    requires
        steady(*fl),
    ensures
        r == viewport_of(unit(*fl), width, height, scale_factor),
{
    let scale: u32 = narrow(fl, scale_factor);
    (ratio(fl, of_int(fl, width as i64), scale), ratio(fl, of_int(fl, height as i64), scale))
}

/// The seconds that a frame stands for.
pub open spec fn step_of(since_last: Option<u32>) -> u32 {
    match since_last {
        Some(dt) => dt,
        None => FIRST_STEP,
    }
}

/// The seconds that a frame stands for, by those since the last one.
pub fn frame_step(since_last: Option<u32>) -> (r: u32)
    ensures
        r == step_of(since_last),
{
    match since_last {
        Some(dt) => dt,
        None => FIRST_STEP,
    }
}

/// What to do after a frame was rendered.
#[derive(Debug, Clone, Copy, PartialEq, Eq, Structural)]
pub enum AfterFrame {
    Nothing,
    /// Set the surface up again at the size of the window.
    Resize,
    /// Say what went wrong.
    Report,
}

/// What to do after a frame: a lost surface is set up again, any other failure is reported.
pub fn after_frame(result: &Result<(), RenderError>) -> (r: AfterFrame)
    ensures
        r == match *result {
            Ok(_) => AfterFrame::Nothing,
            Err(RenderError::SurfaceLost) => AfterFrame::Resize,
            Err(_) => AfterFrame::Report,
        },
{
    match result {
        Ok(_) => AfterFrame::Nothing,
        Err(RenderError::SurfaceLost) => AfterFrame::Resize,
        Err(_) => AfterFrame::Report,
    }
}

} // verus!
