//! What the parts of a SwiftUI view leave on the node that they belong to.
use vstd::prelude::*;

use crate::scan::{at, between, closing, digit, letter, line_at, literal, next, run_end, trivia_end, upper, Class, Cur};
use crate::swiftui_import::{
    ahead, args_at, children_at, clip_at, frame_at, framed, head_at, modified, modifier_end, modifiers_at,
    value_at, view_at, Omission, SwiftNode, SwiftNumber, SwiftStop, SwiftTerm,
};

verus! {

/// A view with the properties, callbacks and omissions of a second one behind its own.
pub open spec fn followed_by(v: SwiftNode, g: SwiftNode) -> SwiftNode {
    SwiftNode {
        props: v.props + g.props,
        callbacks: v.callbacks + g.callbacks,
        unsupported: v.unsupported + g.unsupported,
        ..v
    }
}

/// A view that is nothing but properties, callbacks and omissions.
pub open spec fn mere(g: SwiftNode) -> bool {
    g.kind.len() == 0 && g.label is None && g.children.len() == 0
}

/// What modifiers make of a view that is nothing yet.
pub open spec fn nothing() -> SwiftNode {
    SwiftNode {
        kind: Seq::empty(),
        label: None,
        props: Seq::empty(),
        callbacks: Seq::empty(),
        children: Seq::empty(),
        unsupported: Seq::empty(),
    }
}

/// The second reading is the first with a view in front.
pub open spec fn carried(
    v: SwiftNode,
    bare: Result<(SwiftNode, Cur), SwiftStop>,
    full: Result<(SwiftNode, Cur), SwiftStop>,
) -> bool {
    match (bare, full) {
        (Ok((g, e)), Ok((w, f))) => e == f && mere(g) && w == followed_by(v, g),
        (Err(e), Err(f)) => e == f,
        _ => false,
    }
}

proof fn lemma_frame(b: Seq<u8>, c: Cur, p: Seq<(Seq<char>, SwiftTerm)>, q: Seq<(Seq<char>, SwiftTerm)>)
    ensures
        match (frame_at(b, c, q), frame_at(b, c, p + q)) {
            (Ok((g, e)), Ok((w, f))) => e == f && w == p + g,
            (Err(e), Err(f)) => e == f,
            _ => false,
        },
    decreases b.len() - c.pos,
{
    let c0 = trivia_end(b, c);
    let c1 = run_end(b, c0, Class::Word);
    let key = between(b, c0, c1);
    let c2 = trivia_end(b, crate::swiftui_import::skip_if(b, trivia_end(b, c1), 58));
    if at(b, c0) != Some(41u8) {
        match value_at(b, c2) {
            Err(_) => {},
            Ok((v, c3)) => {
                let c4 = crate::swiftui_import::skip_if(b, trivia_end(b, c3), 44);
                assert(framed(p + q, key, v) =~= p + framed(q, key, v));
                if ahead(b, c, c4) {
                    lemma_frame(b, c4, p, framed(q, key, v));
                }
            },
        }
    }
}

proof fn lemma_clip(b: Seq<u8>, c: Cur, p: Seq<(Seq<char>, SwiftTerm)>, q: Seq<(Seq<char>, SwiftTerm)>)
    ensures
        match (clip_at(b, c, q), clip_at(b, c, p + q)) {
            (Ok((g, e)), Ok((w, f))) => e == f && w == p + g,
            (Err(e), Err(f)) => e == f,
            _ => false,
        },
    decreases b.len() - c.pos,
{
    let c0 = trivia_end(b, c);
    let c1 = run_end(b, c0, Class::Word);
    let key = between(b, c0, c1);
    let c2 = trivia_end(b, crate::swiftui_import::skip_if(b, trivia_end(b, c1), 58));
    if at(b, c0) != Some(41u8) && at(b, c0) is Some {
        match value_at(b, c2) {
            Err(_) => {},
            Ok((v, c3)) => {
                let c4 = crate::swiftui_import::skip_if(b, trivia_end(b, c3), 44);
                if ahead(b, c, c4) {
                    if key == "cornerRadius"@ && v is Float {
                        assert((p + q).push(("corner_radius"@, v)) =~= p + q.push(("corner_radius"@, v)));
                        lemma_clip(b, c4, p, q.push(("corner_radius"@, v)));
                    } else {
                        lemma_clip(b, c4, p, q);
                    }
                }
            },
        }
    }
}

proof fn lemma_modified(b: Seq<u8>, c: Cur, name: Seq<char>, line: int, v: SwiftNode, g: SwiftNode)
    requires
        mere(g),
    ensures
        match (modified(b, c, name, line, g), modified(b, c, name, line, followed_by(v, g))) {
            (Ok((h, e)), Ok((w, f))) => e == f && mere(h) && w == followed_by(v, h),
            (Err(e), Err(f)) => e == f,
            _ => false,
        },
{
    reveal(modified);
    lemma_frame(b, c, v.props, g.props);
    let c1 = run_end(b, c, Class::Word);
    let c2 = trivia_end(b, c1);
    lemma_clip(b, next(b, c2), v.props, g.props);
    let w = followed_by(v, g);
    assert forall|x: (Seq<char>, SwiftTerm)| #[trigger] w.props.push(x) == v.props + g.props.push(x) by {
        assert(w.props.push(x) =~= v.props + g.props.push(x));
    }
    assert forall|x: Seq<char>| #[trigger] w.callbacks.push(x) == v.callbacks + g.callbacks.push(x) by {
        assert(w.callbacks.push(x) =~= v.callbacks + g.callbacks.push(x));
    }
    assert forall|x: Omission| #[trigger] w.unsupported.push(x) == v.unsupported + g.unsupported.push(x) by {
        assert(w.unsupported.push(x) =~= v.unsupported + g.unsupported.push(x));
    }
}

proof fn lemma_chain(b: Seq<u8>, c: Cur, v: SwiftNode, g: SwiftNode)
    requires
        mere(g),
    ensures
        match (modifiers_at(b, c, g), modifiers_at(b, c, followed_by(v, g))) {
            (Ok((h, e)), Ok((w, f))) => e == f && mere(h) && w == followed_by(v, h),
            (Err(e), Err(f)) => e == f,
            _ => false,
        },
    decreases b.len() - c.pos,
{
    let c0 = trivia_end(b, c);
    let c1 = run_end(b, next(b, c0), Class::Word);
    let name = between(b, next(b, c0), c1);
    let c2 = trivia_end(b, c1);
    let w = followed_by(v, g);
    if at(b, c0) != Some(46u8) {
    } else if at(b, c2) != Some(40u8) {
        let hidden = ("hidden"@, SwiftTerm::Bool(true));
        let left_out = Omission { line: line_at(c0), text: "modifier ."@ + name };
        let g1 = if name == "isHidden"@ {
            SwiftNode { props: g.props.push(hidden), ..g }
        } else if name == ""@ {
            g
        } else {
            SwiftNode { unsupported: g.unsupported.push(left_out), ..g }
        };
        assert(w.props.push(hidden) =~= v.props + g.props.push(hidden));
        assert(w.unsupported.push(left_out) =~= v.unsupported + g.unsupported.push(left_out));
        if ahead(b, c, c2) {
            lemma_chain(b, c2, v, g1);
        }
    } else {
        let k = trivia_end(b, next(b, c2));
        lemma_modified(b, k, name, line_at(c0), v, g);
        match modified(b, k, name, line_at(c0), g) {
            Err(_) => {},
            Ok((g1, c3)) => {
                let c4 = modifier_end(b, c3);
                if ahead(b, c, c4) {
                    lemma_chain(b, c4, v, g1);
                }
            },
        }
    }
}

/// Modifiers mean the same on a view whatever stands before them: what a chain leaves on any view
/// is what it leaves on a bare one, behind what the view has, and it ends, or fails, in the same
/// place.
pub proof fn law_chain_means_the_same_on_every_view(b: Seq<u8>, c: Cur, v: SwiftNode)
    ensures
        carried(v, modifiers_at(b, c, nothing()), modifiers_at(b, c, v)),
{
    lemma_chain(b, c, v, nothing());
    assert(followed_by(v, nothing()) =~= v);
}

/// The sorts of block that can follow the arguments of a view.
pub enum Block {
    /// None.
    Absent,
    /// An action.
    Action,
    /// Child views.
    Children,
}

/// What stands at a place behind the arguments of a view: a brace with a capital letter as the
/// first thing in it opens child views, any other brace an action.
pub open spec fn block_at(b: Seq<u8>, c: Cur) -> Block {
    if at(b, c) != Some(123u8) {
        Block::Absent
    } else {
        match at(b, trivia_end(b, next(b, c))) {
            Some(x) => if 65 <= x <= 90 {
                Block::Children
            } else {
                Block::Action
            },
            None => Block::Action,
        }
    }
}

/// A view read with its chain is the view without, whatever block it has, followed by what the
/// chain leaves on a bare view: all the properties, callbacks and omissions of the one, then those
/// of the other. A view without a block has nothing but its label and arguments before the chain,
/// one with an action has a click callback besides, and one with child views has them as its
/// children.
pub proof fn law_modifiers_stay_on_every_view(b: Seq<u8>, c: Cur, kind: Seq<char>, v: SwiftNode, e: Cur)
    requires
        view_at(b, c, kind) == Ok::<(SwiftNode, Cur), SwiftStop>((v, e)),
    ensures
        head_at(b, c, kind) is Ok,
        ({
            let (head, p) = head_at(b, c, kind)->Ok_0;
            match block_at(b, p) {
                Block::Absent => carried(head, modifiers_at(b, p, nothing()), Ok((v, e))),
                Block::Action => {
                    let q = trivia_end(b, closing(b, trivia_end(b, next(b, p)), 123, 125, 1));
                    let acting = SwiftNode { callbacks: head.callbacks.push("click"@), ..head };
                    carried(acting, modifiers_at(b, q, nothing()), Ok((v, e)))
                },
                Block::Children => {
                    &&& children_at(b, next(b, p), Seq::empty()) is Ok
                    &&& {
                        let (children, q) = children_at(b, next(b, p), Seq::empty())->Ok_0;
                        &&& v.children == children
                        &&& carried(SwiftNode { children, ..head }, modifiers_at(b, q, nothing()), Ok((v, e)))
                    }
                },
            }
        }),
        v.kind == kind,
        v.label == (head_at(b, c, kind)->Ok_0).0.label,
{
    let (head, p) = head_at(b, c, kind)->Ok_0;
    match block_at(b, p) {
        Block::Absent => {
            law_chain_means_the_same_on_every_view(b, p, head);
        },
        Block::Action => {
            let q = trivia_end(b, closing(b, trivia_end(b, next(b, p)), 123, 125, 1));
            law_chain_means_the_same_on_every_view(
                b,
                q,
                SwiftNode { callbacks: head.callbacks.push("click"@), ..head },
            );
        },
        Block::Children => {
            let (children, q) = children_at(b, next(b, p), Seq::empty())->Ok_0;
            law_chain_means_the_same_on_every_view(b, q, SwiftNode { children, ..head });
        },
    }
}

/// What a modifier with one value leaves on a view, by its name.
pub open spec fn mark(name: Seq<char>, t: SwiftTerm) -> Seq<(Seq<char>, SwiftTerm)> {
    if name == "font"@ {
        match t {
            SwiftTerm::FontRole(px) => seq![("size"@, SwiftTerm::Float(SwiftNumber::Single(px)))],
            _ => Seq::empty(),
        }
    } else if name == "foregroundColor"@ || name == "foregroundStyle"@ {
        seq![("color"@, t)]
    } else if name == "background"@ || name == "fill"@ {
        seq![("background"@, t)]
    } else if name == "padding"@ {
        seq![("padding"@, t)]
    } else if name == "opacity"@ {
        seq![("opacity"@, t)]
    } else if name == "cornerRadius"@ {
        if t is Float {
            seq![("corner_radius"@, t)]
        } else {
            Seq::empty()
        }
    } else {
        seq![
            (
                "weight"@,
                if t is Ident {
                    t
                } else {
                    SwiftTerm::Ident("regular"@)
                },
            ),
        ]
    }
}

/// The modifiers that take one value.
pub open spec fn valued(name: Seq<char>) -> bool {
    ||| name == "font"@
    ||| name == "fontWeight"@
    ||| name == "foregroundColor"@
    ||| name == "foregroundStyle"@
    ||| name == "background"@
    ||| name == "fill"@
    ||| name == "padding"@
    ||| name == "cornerRadius"@
    ||| name == "opacity"@
}

/// The modifiers that leave something but take no value.
pub open spec fn plain(name: Seq<char>) -> bool {
    ||| name == "bold"@
    ||| name == "italic"@
    ||| name == "hidden"@
    ||| name == "onTapGesture"@
    ||| name == "onLongPressGesture"@
}

/// A view with properties alone.
pub open spec fn marked(props: Seq<(Seq<char>, SwiftTerm)>) -> SwiftNode {
    SwiftNode { props, ..nothing() }
}

/// What a modifier without a value leaves on a view.
pub open spec fn plain_mark(name: Seq<char>) -> SwiftNode {
    if name == "bold"@ {
        marked(seq![("weight"@, SwiftTerm::Ident("bold"@))])
    } else if name == "italic"@ {
        marked(seq![("italic"@, SwiftTerm::Bool(true))])
    } else if name == "hidden"@ {
        marked(seq![("hidden"@, SwiftTerm::Bool(true))])
    } else {
        SwiftNode { callbacks: seq!["click"@], ..nothing() }
    }
}

/// A note of a modifier that was left out.
pub open spec fn note(name: Seq<char>, line: int) -> SwiftNode {
    SwiftNode { unsupported: seq![Omission { line, text: "modifier ."@ + name }], ..nothing() }
}

/// The reading `r` is what `g` holds and then what is read from `c` on.
pub open spec fn then_read(b: Seq<u8>, g: SwiftNode, c: Cur, r: Result<(SwiftNode, Cur), SwiftStop>) -> bool {
    carried(g, modifiers_at(b, c, nothing()), r)
}

proof fn lemma_words_apart()
    ensures
        "frame"@.len() == 5 && "clipShape"@.len() == 9 && "bold"@.len() == 4 && "italic"@.len() == 6,
        "hidden"@.len() == 6 && "onTapGesture"@.len() == 12 && "onLongPressGesture"@.len() == 18,
        "font"@.len() == 4 && "fontWeight"@.len() == 10 && "foregroundColor"@.len() == 15,
        "foregroundStyle"@.len() == 15 && "background"@.len() == 10 && "fill"@.len() == 4,
        "padding"@.len() == 7 && "cornerRadius"@.len() == 12 && "opacity"@.len() == 7,
        "bold"@ != "font"@ && "bold"@ != "fill"@ && "fill"@ != "font"@,
        "italic"@ != "hidden"@ && "padding"@ != "opacity"@ && "background"@ != "fontWeight"@,
        "onTapGesture"@ != "cornerRadius"@ && "foregroundColor"@ != "foregroundStyle"@,
{
    reveal_strlit("frame");
    reveal_strlit("clipShape");
    reveal_strlit("bold");
    reveal_strlit("italic");
    reveal_strlit("hidden");
    reveal_strlit("onTapGesture");
    reveal_strlit("onLongPressGesture");
    reveal_strlit("font");
    reveal_strlit("fontWeight");
    reveal_strlit("foregroundColor");
    reveal_strlit("foregroundStyle");
    reveal_strlit("background");
    reveal_strlit("fill");
    reveal_strlit("padding");
    reveal_strlit("cornerRadius");
    reveal_strlit("opacity");
    assert("foregroundColor"@[10] != "foregroundStyle"@[10]);
    assert("bold"@[0] != "font"@[0] && "bold"@[0] != "fill"@[0]);
    assert("fill"@[1] != "font"@[1]);
    assert("italic"@[0] != "hidden"@[0]);
    assert("padding"@[0] != "opacity"@[0]);
    assert("background"@[0] != "fontWeight"@[0]);
    assert("cornerRadius"@[0] != "onTapGesture"@[0]);
}

/// What one modifier in brackets leaves, read from the place of its arguments, and the place among
/// or behind them.
pub open spec fn left_by(b: Seq<u8>, k: Cur, name: Seq<char>, line: int) -> Result<(SwiftNode, Cur), SwiftStop> {
    if name == "frame"@ {
        match frame_at(b, k, Seq::empty()) {
            Ok((props, e)) => Ok((marked(props), e)),
            Err(e) => Err(e),
        }
    } else if name == "clipShape"@ {
        let w = run_end(b, k, Class::Word);
        let open = trivia_end(b, w);
        if between(b, k, w) == "RoundedRectangle"@ && at(b, open) == Some(40u8) {
            match clip_at(b, next(b, open), Seq::empty()) {
                Ok((props, e)) => Ok((marked(props), e)),
                Err(e) => Err(e),
            }
        } else {
            Ok((nothing(), open))
        }
    } else if plain(name) {
        Ok((plain_mark(name), k))
    } else if valued(name) {
        match value_at(b, k) {
            Ok((t, e)) => Ok((marked(mark(name, t)), e)),
            Err(e) => Err(e),
        }
    } else {
        Ok((note(name, line), k))
    }
}

proof fn lemma_left_by(b: Seq<u8>, k: Cur, name: Seq<char>, line: int)
    ensures
        modified(b, k, name, line, nothing()) == left_by(b, k, name, line),
{
    reveal(modified);
    lemma_words_apart();
    let g = nothing();
    assert forall|x: (Seq<char>, SwiftTerm)| #[trigger] g.props.push(x) == seq![x] by {
        assert(g.props.push(x) =~= seq![x]);
    }
    assert(g.callbacks.push("click"@) =~= seq!["click"@]);
    let o = Omission { line, text: "modifier ."@ + name };
    assert(g.unsupported.push(o) =~= seq![o]);
}

/// Every supported modifier leaves its property or callback on the view that it follows, and every
/// other leaves an omission with its name and line; what follows it is read as if it stood first.
pub proof fn law_modifier_leaves_its_mark(b: Seq<u8>, c: Cur, g: SwiftNode, e: Cur)
    requires
        modifiers_at(b, c, nothing()) == Ok::<(SwiftNode, Cur), SwiftStop>((g, e)),
    ensures
        ({
            let c0 = trivia_end(b, c);
            let c1 = run_end(b, next(b, c0), Class::Word);
            let name = between(b, next(b, c0), c1);
            let c2 = trivia_end(b, c1);
            let r = Ok::<(SwiftNode, Cur), SwiftStop>((g, e));
            if at(b, c0) != Some(46u8) {
                g == nothing() && e == c0
            } else if at(b, c2) == Some(40u8) {
                match left_by(b, trivia_end(b, next(b, c2)), name, line_at(c0)) {
                    Ok((h, k)) => then_read(b, h, modifier_end(b, k), r),
                    Err(_) => false,
                }
            } else if name == "isHidden"@ {
                then_read(b, marked(seq![("hidden"@, SwiftTerm::Bool(true))]), c2, r)
            } else if name.len() == 0 {
                then_read(b, nothing(), c2, r)
            } else {
                then_read(b, note(name, line_at(c0)), c2, r)
            }
        }),
{
    reveal_strlit("");
    reveal_strlit("isHidden");
    let c0 = trivia_end(b, c);
    let c1 = run_end(b, next(b, c0), Class::Word);
    let name = between(b, next(b, c0), c1);
    let c2 = trivia_end(b, c1);
    let v = nothing();
    if at(b, c0) != Some(46u8) {
    } else if at(b, c2) == Some(40u8) {
        let k = trivia_end(b, next(b, c2));
        lemma_left_by(b, k, name, line_at(c0));
        let (h, k1) = modified(b, k, name, line_at(c0), v)->Ok_0;
        law_chain_means_the_same_on_every_view(b, modifier_end(b, k1), h);
    } else {
        let hidden = ("hidden"@, SwiftTerm::Bool(true));
        let o = Omission { line: line_at(c0), text: "modifier ."@ + name };
        assert(v.props.push(hidden) =~= seq![hidden]);
        assert(v.unsupported.push(o) =~= seq![o]);
        assert(name.len() == 0 ==> name =~= ""@);
        law_chain_means_the_same_on_every_view(b, c2, marked(seq![hidden]));
        law_chain_means_the_same_on_every_view(b, c2, nothing());
        law_chain_means_the_same_on_every_view(b, c2, note(name, line_at(c0)));
    }
}

/// What one argument of a frame leaves: a width or a height of its own, or a share of the room
/// where there is no upper bound.
pub open spec fn frame_mark(key: Seq<char>, v: SwiftTerm) -> Seq<(Seq<char>, SwiftTerm)> {
    let boundless = v == SwiftTerm::Ident("infinity"@);
    if (key == "maxWidth"@ || key == "maxHeight"@) && boundless {
        seq![("grow"@, SwiftTerm::Float(SwiftNumber::One))]
    } else if key == "width"@ || key == "minWidth"@ || key == "maxWidth"@ {
        seq![("width"@, v)]
    } else if key == "height"@ || key == "minHeight"@ || key == "maxHeight"@ {
        seq![("height"@, v)]
    } else {
        Seq::empty()
    }
}

/// The place of the value of a named argument whose name begins at a place.
pub open spec fn value_place(b: Seq<u8>, c: Cur) -> Cur {
    let colon = trivia_end(b, run_end(b, c, Class::Word));
    trivia_end(
        b,
        if at(b, colon) == Some(58u8) {
            next(b, colon)
        } else {
            colon
        },
    )
}

/// The place behind an argument, with the comma behind it.
pub open spec fn behind_comma(b: Seq<u8>, c: Cur) -> Cur {
    let comma = trivia_end(b, c);
    if at(b, comma) == Some(44u8) {
        next(b, comma)
    } else {
        comma
    }
}

/// Each argument of a frame leaves its mark, in the order written, up to the closing bracket.
pub proof fn law_frame_is_read_by_its_arguments(b: Seq<u8>, c: Cur)
    ensures
        ({
            let c0 = trivia_end(b, c);
            let key = between(b, c0, run_end(b, c0, Class::Word));
            match frame_at(b, c, Seq::empty()) {
                Err(_) => at(b, c0) != Some(41u8),
                Ok((props, e)) => if at(b, c0) == Some(41u8) {
                    props.len() == 0 && e == c0
                } else {
                    match value_at(b, value_place(b, c0)) {
                        Err(_) => false,
                        Ok((v, k)) => frame_at(b, behind_comma(b, k), Seq::empty()) matches Ok((rest, f)) && f == e
                            && props == frame_mark(key, v) + rest,
                    }
                },
            }
        }),
{
    let c0 = trivia_end(b, c);
    let key = between(b, c0, run_end(b, c0, Class::Word));
    reveal_strlit("width");
    reveal_strlit("height");
    reveal_strlit("minWidth");
    reveal_strlit("minHeight");
    reveal_strlit("maxWidth");
    reveal_strlit("maxHeight");
    assert("maxWidth"@[1] != "minWidth"@[1]);
    assert("maxHeight"@[1] != "minHeight"@[1]);
    if at(b, c0) != Some(41u8) {
        if let Ok((v, k)) = value_at(b, value_place(b, c0)) {
            let none = Seq::<(Seq<char>, SwiftTerm)>::empty();
            assert(framed(none, key, v) =~= frame_mark(key, v));
            lemma_frame(b, behind_comma(b, k), frame_mark(key, v), none);
            assert(frame_mark(key, v) + none =~= frame_mark(key, v));
        }
    }
}

proof fn lemma_args(b: Seq<u8>, c: Cur, p: Seq<(Seq<char>, SwiftTerm)>, q: Seq<(Seq<char>, SwiftTerm)>)
    ensures
        match (args_at(b, c, q), args_at(b, c, p + q)) {
            (Ok((g, e)), Ok((w, f))) => e == f && w == p + g,
            (Err(e), Err(f)) => e == f,
            _ => false,
        },
    decreases b.len() - c.pos,
{
    let c0 = trivia_end(b, c);
    let c1 = run_end(b, c0, Class::Word);
    let key = between(b, c0, c1);
    let c2 = trivia_end(b, c1);
    let keyed = at(b, c0) matches Some(x) && letter(x);
    if at(b, c0) != Some(41u8) {
        let named = keyed && at(b, c2) == Some(58u8);
        let read = value_at(b, trivia_end(b, next(b, c2)));
        if named && read is Err {
        } else {
            let q1 = if named {
                q.push((key, (read->Ok_0).0))
            } else {
                q
            };
            let c3 = if named {
                (read->Ok_0).1
            } else if keyed {
                c2
            } else {
                c0
            };
            if named {
                assert((p + q).push((key, (read->Ok_0).0)) =~= p + q1);
            }
            let c4 = trivia_end(b, c3);
            if at(b, c4) == Some(44u8) && ahead(b, c, next(b, c4)) {
                lemma_args(b, next(b, c4), p, q1);
            }
        }
    }
}

/// Each named argument of a view gives the property of that name, in the order written.
pub proof fn law_named_argument_is_a_property(b: Seq<u8>, c: Cur, v: SwiftTerm, k: Cur)
    requires
        ({
            let c0 = trivia_end(b, c);
            let colon = trivia_end(b, run_end(b, c0, Class::Word));
            &&& at(b, c0) matches Some(x) && (65 <= x <= 90 || 97 <= x <= 122)
            &&& at(b, colon) == Some(58u8)
            &&& value_at(b, trivia_end(b, next(b, colon))) == Ok::<(SwiftTerm, Cur), SwiftStop>((v, k))
        }),
    ensures
        ({
            let c0 = trivia_end(b, c);
            let key = between(b, c0, run_end(b, c0, Class::Word));
            let k0 = trivia_end(b, k);
            args_at(b, c, Seq::empty()) matches Ok((props, e)) ==> {
                &&& at(b, k0) == Some(41u8) ==> props == seq![(key, v)] && e == next(b, k0)
                &&& at(b, k0) == Some(44u8) ==> (args_at(b, next(b, k0), Seq::empty()) matches Ok((rest, f)) && f == e
                    && props == seq![(key, v)] + rest)
            }
        }),
{
    let c0 = trivia_end(b, c);
    let key = between(b, c0, run_end(b, c0, Class::Word));
    let k0 = trivia_end(b, k);
    let none = Seq::<(Seq<char>, SwiftTerm)>::empty();
    assert(none.push((key, v)) =~= seq![(key, v)]);
    lemma_args(b, next(b, k0), seq![(key, v)], none);
    assert(seq![(key, v)] + none =~= seq![(key, v)]);
}

proof fn lemma_kids(b: Seq<u8>, c: Cur, p: Seq<SwiftNode>, q: Seq<SwiftNode>)
    ensures
        match (children_at(b, c, q), children_at(b, c, p + q)) {
            (Ok((g, e)), Ok((w, f))) => e == f && w == p + g,
            (Err(e), Err(f)) => e == f,
            _ => false,
        },
    decreases b.len() - c.pos,
{
    let c0 = trivia_end(b, c);
    let c1 = run_end(b, c0, Class::Word);
    if let Some(x) = at(b, c0) {
        if x == 125 {
        } else if upper(x) {
            if ahead(b, c, c1) {
                if let Ok((v, c2)) = view_at(b, c1, between(b, c0, c1)) {
                    assert((p + q).push(v) =~= p + q.push(v));
                    if ahead(b, c, c2) {
                        lemma_kids(b, c2, p, q.push(v));
                    }
                }
            }
        } else if ahead(b, c, next(b, c0)) {
            lemma_kids(b, next(b, c0), p, q);
        }
    }
}

/// A block holds the views that begin with a capital letter in it, each read as a view by itself,
/// in the order written, up to the closing brace.
pub proof fn law_block_holds_its_views_in_order(b: Seq<u8>, c: Cur, kids: Seq<SwiftNode>, e: Cur)
    requires
        children_at(b, c, Seq::empty()) == Ok::<(Seq<SwiftNode>, Cur), SwiftStop>((kids, e)),
    ensures
        ({
            let c0 = trivia_end(b, c);
            let c1 = run_end(b, c0, Class::Word);
            match at(b, c0) {
                None => kids.len() == 0 && e == c0,
                Some(x) => if x == 125 {
                    kids.len() == 0 && e == next(b, c0)
                } else if 65 <= x <= 90 {
                    match view_at(b, c1, between(b, c0, c1)) {
                        Ok((v, k)) => children_at(b, k, Seq::empty()) matches Ok((rest, f)) && f == e && kids
                            == seq![v] + rest,
                        Err(_) => false,
                    }
                } else {
                    children_at(b, next(b, c0), Seq::empty()) == Ok::<(Seq<SwiftNode>, Cur), SwiftStop>(
                        (kids, e),
                    )
                },
            }
        }),
{
    let c0 = trivia_end(b, c);
    let c1 = run_end(b, c0, Class::Word);
    if let Ok((v, k)) = view_at(b, c1, between(b, c0, c1)) {
        let none = Seq::<SwiftNode>::empty();
        assert(none.push(v) =~= seq![v] + none);
        lemma_kids(b, k, seq![v], none);
    }
}

/// A view's label is the text that stands first in its brackets, in quotes; a view without
/// brackets has no label and no arguments.
pub proof fn law_first_text_is_the_label(b: Seq<u8>, c: Cur, kind: Seq<char>, v: SwiftNode, e: Cur)
    requires
        head_at(b, c, kind) == Ok::<(SwiftNode, Cur), SwiftStop>((v, e)),
    ensures
        v.kind == kind,
        v.children.len() == 0 && v.callbacks.len() == 0 && v.unsupported.len() == 0,
        ({
            let c0 = trivia_end(b, c);
            let c1 = trivia_end(b, next(b, c0));
            if at(b, c0) != Some(40u8) {
                v.label is None && v.props.len() == 0 && e == c0
            } else if at(b, c1) == Some(34u8) {
                match literal(b, next(b, c1), 34, false, Seq::empty()) {
                    Ok((text, k)) => {
                        let rest = if at(b, trivia_end(b, k)) == Some(44u8) {
                            trivia_end(b, next(b, trivia_end(b, k)))
                        } else {
                            trivia_end(b, k)
                        };
                        &&& v.label == Some(text)
                        &&& args_at(b, rest, Seq::empty()) matches Ok((props, f)) && v.props == props && e
                            == trivia_end(b, f)
                    },
                    Err(_) => false,
                }
            } else {
                &&& v.label is None
                &&& args_at(b, c1, Seq::empty()) matches Ok((props, f)) && v.props == props && e == trivia_end(b, f)
            }
        }),
{
}

/// A colour by its red, green and blue and how opaque it is.
pub open spec fn rgba(r: int, g: int, b: int, a: int) -> int {
    r * 0x100_0000 + g * 0x1_0000 + b * 0x100 + a
}

/// The value names a colour.
pub open spec fn is_color(t: SwiftTerm, r: int, g: int, b: int, a: int) -> bool {
    t matches SwiftTerm::Color(c) && c == rgba(r, g, b, a)
}

/// The value is a text style of so many pixels, at one half each.
pub open spec fn is_size(t: SwiftTerm, bits: u32) -> bool {
    t == SwiftTerm::FontRole(bits)
}

/// A word behind a point is a colour where it names one, a text style where it names one, and
/// itself otherwise.
pub proof fn law_dotted_word_is_a_color_or_a_style(b: Seq<u8>, c: Cur)
    requires
        at(b, trivia_end(b, c)) == Some(46u8),
    ensures
        ({
            let d = next(b, trivia_end(b, c));
            let e = run_end(b, d, Class::Word);
            let name = between(b, d, e);
            value_at(b, c) matches Ok((t, f)) && f == e && {
                &&& name == "white"@ ==> is_color(t, 255, 255, 255, 255)
                &&& name == "black"@ ==> is_color(t, 0, 0, 0, 255)
                &&& name == "red"@ ==> is_color(t, 255, 0, 0, 255)
                &&& name == "green"@ ==> is_color(t, 0, 255, 0, 255)
                &&& name == "blue"@ ==> is_color(t, 0, 0, 255, 255)
                &&& name == "yellow"@ ==> is_color(t, 255, 255, 0, 255)
                &&& name == "orange"@ ==> is_color(t, 255, 136, 0, 255)
                &&& name == "purple"@ ==> is_color(t, 136, 0, 255, 255)
                &&& name == "gray"@ || name == "grey"@ ==> is_color(t, 136, 136, 136, 255)
                &&& name == "clear"@ ==> is_color(t, 0, 0, 0, 0)
                &&& name == "largeTitle"@ ==> is_size(t, 0x4208_0000)
                &&& name == "title"@ || name == "title1"@ ==> is_size(t, 0x41E0_0000)
                &&& name == "title2"@ ==> is_size(t, 0x41B0_0000)
                &&& name == "title3"@ ==> is_size(t, 0x41A0_0000)
                &&& name == "headline"@ ==> is_size(t, 0x4188_0000)
                &&& name == "body"@ ==> is_size(t, 0x4180_0000)
                &&& name == "callout"@ ==> is_size(t, 0x4170_0000)
                &&& name == "subheadline"@ ==> is_size(t, 0x4160_0000)
                &&& name == "footnote"@ ==> is_size(t, 0x4150_0000)
                &&& name == "caption"@ || name == "caption2"@ ==> is_size(t, 0x4140_0000)
                &&& t is Color || t is FontRole || t == SwiftTerm::Ident(name)
            }
        }),
{
    lemma_tones_apart();
}

proof fn lemma_tones_apart()
    ensures
        "white"@.len() == 5 && "black"@.len() == 5 && "red"@.len() == 3 && "green"@.len() == 5,
        "blue"@.len() == 4 && "yellow"@.len() == 6 && "orange"@.len() == 6 && "purple"@.len() == 6,
        "gray"@.len() == 4 && "grey"@.len() == 4 && "clear"@.len() == 5,
        "white"@[0] != "black"@[0] && "white"@[0] != "green"@[0] && "white"@[0] != "clear"@[0],
        "black"@[0] != "green"@[0] && "black"@[0] != "clear"@[0] && "green"@[0] != "clear"@[0],
        "blue"@[0] != "gray"@[0] && "blue"@[0] != "grey"@[0],
        "yellow"@[0] != "orange"@[0] && "yellow"@[0] != "purple"@[0] && "orange"@[0] != "purple"@[0],
        "largeTitle"@[0] == 'l' && "largeTitle"@.len() == 10,
        "title"@.len() == 5 && "title"@[0] == 't',
        "title1"@.len() == 6 && "title1"@[0] == 't' && "title1"@[5] == '1',
        "title2"@.len() == 6 && "title2"@[0] == 't' && "title2"@[5] == '2',
        "title3"@.len() == 6 && "title3"@[0] == 't' && "title3"@[5] == '3',
        "headline"@.len() == 8 && "headline"@[0] == 'h',
        "body"@.len() == 4 && "body"@[0] == 'b' && "body"@[1] == 'o' && "blue"@[1] == 'l' && "blue"@[0] == 'b',
        "callout"@.len() == 7 && "callout"@[2] == 'l',
        "subheadline"@.len() == 11,
        "footnote"@.len() == 8 && "footnote"@[0] == 'f',
        "caption"@.len() == 7 && "caption"@[2] == 'p',
        "caption2"@.len() == 8 && "caption2"@[0] == 'c',
        "white"@[0] == 'w' && "black"@[0] == 'b' && "green"@[0] == 'g' && "clear"@[0] == 'c',
        "yellow"@[0] == 'y' && "orange"@[0] == 'o' && "purple"@[0] == 'p',
        "gray"@[0] == 'g' && "grey"@[0] == 'g',
{
    reveal_strlit("white");
    reveal_strlit("black");
    reveal_strlit("red");
    reveal_strlit("green");
    reveal_strlit("blue");
    reveal_strlit("yellow");
    reveal_strlit("orange");
    reveal_strlit("purple");
    reveal_strlit("gray");
    reveal_strlit("grey");
    reveal_strlit("clear");
    reveal_strlit("largeTitle");
    reveal_strlit("title");
    reveal_strlit("title1");
    reveal_strlit("title2");
    reveal_strlit("title3");
    reveal_strlit("headline");
    reveal_strlit("body");
    reveal_strlit("callout");
    reveal_strlit("subheadline");
    reveal_strlit("footnote");
    reveal_strlit("caption");
    reveal_strlit("caption2");
}

/// A text in quotes is that text, digits are the number that they write, and the words for truth
/// are truth; any other word, but the one for colours, is itself.
pub proof fn law_plain_values_are_themselves(b: Seq<u8>, c: Cur)
    ensures
        ({
            let c0 = trivia_end(b, c);
            let e = run_end(b, c0, Class::Word);
            let word = between(b, c0, e);
            match at(b, c0) {
                None => value_at(b, c) is Err,
                Some(x) => {
                    &&& x == 34 ==> match literal(b, next(b, c0), 34, false, Seq::empty()) {
                        Ok((text, f)) => value_at(b, c) == Ok::<(SwiftTerm, Cur), SwiftStop>(
                            (SwiftTerm::Str(text), f),
                        ),
                        Err(_) => value_at(b, c) is Err,
                    }
                    &&& 48 <= x <= 57 ==> (value_at(b, c) matches Ok((t, f)) && (t matches SwiftTerm::Float(n) ==> n
                        == SwiftNumber::Text(between(b, c0, f))) && (t is Float || t is Range))
                    &&& x != 34 && x != 36 && x != 46 && !digit(x) ==> {
                        &&& word == "true"@ ==> value_at(b, c) == Ok::<(SwiftTerm, Cur), SwiftStop>(
                            (SwiftTerm::Bool(true), e),
                        )
                        &&& word == "false"@ ==> value_at(b, c) == Ok::<(SwiftTerm, Cur), SwiftStop>(
                            (SwiftTerm::Bool(false), e),
                        )
                        &&& word != "true"@ && word != "false"@ && word != "Color"@ ==> value_at(b, c) == Ok::<
                            (SwiftTerm, Cur),
                            SwiftStop,
                        >((SwiftTerm::Ident(word), e))
                    }
                },
            }
        }),
{
    reveal_strlit("true");
    reveal_strlit("false");
    reveal_strlit("Color");
    assert("true"@.len() == 4 && "false"@.len() == 5);
}

} // verus!
