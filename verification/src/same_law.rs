//! When values, expressions, events, shapes and drawing commands are equal.
use vstd::prelude::*;

use crate::expr::{expr_same, ExprModel};
use crate::float::{eq32, eq64};
use crate::input::{input_same, InputModel};
use crate::layout::{rect_same, ComputedRect};
use crate::scene::{
    cmd_same, fill_same, ops_same, path_op_same, shape_same, stops_same, CmdModel, FillModel, PathOp, Shape,
};
use crate::value::{value_same, ValueModel};

verus! {

/// The single is a number and not the zero with a sign: no other bits stand for its value.
pub open spec fn single_bits(x: u32) -> bool {
    x <= 0x7F80_0000 || 0x8000_0000 < x <= 0xFF80_0000
}

/// The double is a number and not the zero with a sign.
pub open spec fn double_bits(x: u64) -> bool {
    x <= 0x7FF0_0000_0000_0000 || 0x8000_0000_0000_0000 < x <= 0xFFF0_0000_0000_0000
}

/// Numbers are equal where their bits are; both zeros are equal, and what is no number is equal to
/// nothing, itself among it.
pub proof fn law_numbers_are_equal_by_value(x: u32, y: u32, p: u64, q: u64)
    ensures
        single_bits(x) && single_bits(y) ==> (eq32(x, y) <==> x == y),
        double_bits(p) && double_bits(q) ==> (eq64(p, q) <==> p == q),
        eq32(0, 0x8000_0000) && eq64(0, 0x8000_0000_0000_0000),
        !single_bits(x) && x != 0x8000_0000 ==> !eq32(x, y) && !eq32(y, x),
        !double_bits(p) && p != 0x8000_0000_0000_0000 ==> !eq64(p, q) && !eq64(q, p),
{
}

/// Every number in the value has bits of its own.
pub open spec fn value_bits(v: ValueModel) -> bool
    decreases v,
{
    match v {
        ValueModel::Float(x) => double_bits(x),
        ValueModel::Px(x) => single_bits(x),
        ValueModel::List(s) => forall|i: int| 0 <= i < s.len() ==> value_bits(#[trigger] s[i]),
        _ => true,
    }
}

/// Values are equal where they are of one kind with one content, items and all.
pub proof fn law_values_are_equal_by_content(a: ValueModel, b: ValueModel)
    requires
        value_bits(a),
        value_bits(b),
    ensures
        value_same(a, b) <==> a == b,
    decreases a,
{
    match (a, b) {
        (ValueModel::List(x), ValueModel::List(y)) => {
            if x.len() == y.len() {
                assert forall|i: int| 0 <= i < x.len() implies (value_same(#[trigger] x[i], y[i]) <==> x[i] == y[i])
                    by {
                    assert(value_bits(x[i]) && value_bits(y[i]));
                    law_values_are_equal_by_content(x[i], y[i]);
                }
                if value_same(a, b) {
                    assert(x =~= y);
                }
            }
        },
        (ValueModel::Float(x), ValueModel::Float(y)) => {
            law_numbers_are_equal_by_value(0, 0, x, y);
        },
        (ValueModel::Px(x), ValueModel::Px(y)) => {
            law_numbers_are_equal_by_value(x, y, 0, 0);
        },
        _ => {},
    }
}

/// Every literal in the expression has bits of its own.
pub open spec fn expr_bits(e: ExprModel) -> bool
    decreases e,
{
    match e {
        ExprModel::Literal(v) => value_bits(v),
        ExprModel::Key(_) => true,
        ExprModel::Un(_, x) => expr_bits(*x),
        ExprModel::Bin(_, l, r) => expr_bits(*l) && expr_bits(*r),
    }
}

/// Expressions are equal where they have the same operators in the same places over the same
/// operands.
pub proof fn law_expressions_are_equal_by_content(a: ExprModel, b: ExprModel)
    requires
        expr_bits(a),
        expr_bits(b),
    ensures
        expr_same(a, b) <==> a == b,
    decreases a,
{
    match (a, b) {
        (ExprModel::Literal(x), ExprModel::Literal(y)) => {
            law_values_are_equal_by_content(x, y);
        },
        (ExprModel::Un(_, x), ExprModel::Un(_, y)) => {
            law_expressions_are_equal_by_content(*x, *y);
        },
        (ExprModel::Bin(_, l, r), ExprModel::Bin(_, m, s)) => {
            law_expressions_are_equal_by_content(*l, *m);
            law_expressions_are_equal_by_content(*r, *s);
        },
        _ => {},
    }
}

/// Every number of the event has bits of its own.
pub open spec fn input_bits(e: InputModel) -> bool {
    match e {
        InputModel::PointerMoved { x, y } => single_bits(x) && single_bits(y),
        InputModel::PointerDown { x, y, .. } => single_bits(x) && single_bits(y),
        InputModel::PointerUp { x, y, .. } => single_bits(x) && single_bits(y),
        InputModel::Scroll { dx, dy } => single_bits(dx) && single_bits(dy),
        InputModel::Pinch { delta } => single_bits(delta),
        InputModel::Rotate { delta } => single_bits(delta),
        _ => true,
    }
}

proof fn lemma_singles()
    ensures
        forall|x: u32, y: u32| single_bits(x) && single_bits(y) ==> (#[trigger] eq32(x, y) <==> x == y),
{
}

/// Events are equal where they are of one kind with the same parts.
pub proof fn law_events_are_equal_by_content(a: InputModel, b: InputModel)
    requires
        input_bits(a),
        input_bits(b),
    ensures
        input_same(a, b) <==> a == b,
{
    lemma_singles();
}

/// Every number of the outline has bits of its own.
pub open spec fn shape_bits(s: Shape) -> bool {
    s matches Shape::RoundedRect { radius } ==> single_bits(radius)
}

/// Every number of the step has bits of its own.
pub open spec fn op_bits(p: PathOp) -> bool {
    match p {
        PathOp::MoveTo { x, y } => single_bits(x) && single_bits(y),
        PathOp::LineTo { x, y } => single_bits(x) && single_bits(y),
        PathOp::QuadTo { cx, cy, x, y } => single_bits(cx) && single_bits(cy) && single_bits(x) && single_bits(y),
        PathOp::Close => true,
    }
}

/// Every offset has bits of its own.
pub open spec fn stops_bits(s: Seq<(u32, u32)>) -> bool {
    forall|i: int| 0 <= i < s.len() ==> single_bits((#[trigger] s[i]).0)
}

/// Every number of the fill has bits of its own.
pub open spec fn fill_bits(f: FillModel) -> bool {
    match f {
        FillModel::Solid(_) => true,
        FillModel::Linear { start, end, stops } => single_bits(start.0) && single_bits(start.1) && single_bits(end.0)
            && single_bits(end.1) && stops_bits(stops),
        FillModel::Radial { center, start_radius, end_radius, stops } => single_bits(center.0) && single_bits(center.1)
            && single_bits(start_radius) && single_bits(end_radius) && stops_bits(stops),
        FillModel::Angular { center, stops } => single_bits(center.0) && single_bits(center.1) && stops_bits(stops),
    }
}

proof fn lemma_stops(a: Seq<(u32, u32)>, b: Seq<(u32, u32)>)
    requires
        stops_bits(a),
        stops_bits(b),
    ensures
        stops_same(a, b) <==> a == b,
{
    lemma_singles();
    if stops_same(a, b) {
        assert forall|i: int| 0 <= i < a.len() implies a[i] == b[i] by {
            assert(eq32(a[i].0, b[i].0));
        }
        assert(a =~= b);
    }
}

/// Outlines, fills and steps of paths are equal where they are of one kind with the same parts.
pub proof fn law_figures_are_equal_by_content(
    a: Shape,
    b: Shape,
    f: FillModel,
    g: FillModel,
    p: PathOp,
    q: PathOp,
)
    requires
        shape_bits(a) && shape_bits(b),
        fill_bits(f) && fill_bits(g),
        op_bits(p) && op_bits(q),
    ensures
        shape_same(a, b) <==> a == b,
        fill_same(f, g) <==> f == g,
        path_op_same(p, q) <==> p == q,
{
    lemma_singles();
    match (f, g) {
        (FillModel::Linear { stops: x, .. }, FillModel::Linear { stops: y, .. }) => {
            lemma_stops(x, y);
        },
        (FillModel::Radial { stops: x, .. }, FillModel::Radial { stops: y, .. }) => {
            lemma_stops(x, y);
        },
        (FillModel::Angular { stops: x, .. }, FillModel::Angular { stops: y, .. }) => {
            lemma_stops(x, y);
        },
        _ => {},
    }
}

/// Every number of the command has bits of its own.
pub open spec fn cmd_bits(c: CmdModel) -> bool {
    match c {
        CmdModel::FilledRect { x, y, w, h, corner_radius, rotation, .. } => single_bits(x) && single_bits(y)
            && single_bits(w) && single_bits(h) && single_bits(corner_radius) && single_bits(rotation),
        CmdModel::FrostedRect { x, y, w, h, corner_radius, blur_radius, .. } => single_bits(x) && single_bits(y)
            && single_bits(w) && single_bits(h) && single_bits(corner_radius) && single_bits(blur_radius),
        CmdModel::Text { x, y, size, .. } => single_bits(x) && single_bits(y) && single_bits(size),
        CmdModel::FilledShape { x, y, w, h, shape, fill, rotation } => single_bits(x) && single_bits(y)
            && single_bits(w) && single_bits(h) && shape_bits(shape) && fill_bits(fill) && single_bits(rotation),
        CmdModel::Path { ops, fill, stroke } => (forall|i: int| 0 <= i < ops.len() ==> op_bits(#[trigger] ops[i])) && (
        fill matches Some(f) ==> fill_bits(f)) && (stroke matches Some(s) ==> single_bits(s.1)),
    }
}

/// Drawing commands are equal where they are of one kind and every part of them is.
pub proof fn law_commands_are_equal_by_content(a: CmdModel, b: CmdModel)
    requires
        cmd_bits(a),
        cmd_bits(b),
    ensures
        cmd_same(a, b) <==> a == b,
{
    lemma_singles();
    match (a, b) {
        (CmdModel::FilledShape { shape: s, fill: f, .. }, CmdModel::FilledShape { shape: t, fill: g, .. }) => {
            law_figures_are_equal_by_content(s, t, f, g, PathOp::Close, PathOp::Close);
        },
        (CmdModel::Path { ops: p, fill: f, stroke: s }, CmdModel::Path { ops: q, fill: g, stroke: t }) => {
            if let (Some(x), Some(y)) = (f, g) {
                law_figures_are_equal_by_content(Shape::Rect, Shape::Rect, x, y, PathOp::Close, PathOp::Close);
            }
            if p.len() == q.len() {
                assert forall|i: int| 0 <= i < p.len() implies (path_op_same(#[trigger] p[i], q[i]) <==> p[i] == q[i])
                    by {
                    assert(op_bits(p[i]) && op_bits(q[i]));
                    law_figures_are_equal_by_content(
                        Shape::Rect,
                        Shape::Rect,
                        FillModel::Solid(0),
                        FillModel::Solid(0),
                        p[i],
                        q[i],
                    );
                }
                if ops_same(p, q) {
                    assert(p =~= q);
                }
            }
        },
        _ => {},
    }
}

/// Rectangles are equal where their place and size are.
pub proof fn law_rectangles_are_equal_by_content(a: ComputedRect, b: ComputedRect)
    requires
        single_bits(a.x) && single_bits(a.y) && single_bits(a.w) && single_bits(a.h),
        single_bits(b.x) && single_bits(b.y) && single_bits(b.w) && single_bits(b.h),
    ensures
        rect_same(a, b) <==> a == b,
{
    lemma_singles();
}

} // verus!
