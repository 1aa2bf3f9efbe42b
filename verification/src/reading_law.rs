//! What whole sources hold, and what is said of what could not be kept.
use vstd::prelude::*;

use crate::expr_law::answer;
use crate::float::{whole, FloatQuery, Unit};
use crate::float_law::law_rounding_goes_towards_zero;
use crate::flutter_import::{
    action_name, args_at, blank, color_literal, literal_value, lowered, lowered_args, lowered_items, node_kind,
    node_prop, rgba_of_argb, source_widget, styled, value_at as flutter_value, FlutterFault, FlutterValue, FlutterWidget,
};
use crate::flutter_import::Omission as Skipped;
use crate::flutter_tree_law::structural;
use crate::ir::{DocModel, MutationModel};
use crate::lowering::{created, sys};
use crate::markup_law::{byte, lemma_pair};
use crate::node::NodeId;
use crate::scan::{at, between, digit, hex_value, in_class, is_hex, is_hex_u32, line_at, next, run_end, start, trivia_end, Class, Cur};
use crate::slint_import::{element_at, source_at, Omission, SlintSource};
use crate::source_law::{law_opacity_moves_to_the_end, lemma_hex_run};
use crate::swiftui_law::rgba;
use crate::value::{ActionModel, ValueModel};

verus! {

/// A colour of Flutter is written by its opacity, red, green and blue, two hexadecimal digits each.
pub proof fn law_flutter_color_is_written_by_its_bytes(b: Seq<u8>, c: Cur)
    requires
        ({
            let c0 = blank(b, c);
            let h = next(b, next(b, c0));
            let e = run_end(b, h, Class::Hex);
            &&& at(b, c0) == Some(48u8)
            &&& at(b, next(b, c0)) == Some(120u8) || at(b, next(b, c0)) == Some(88u8)
            &&& 0 <= h.pos && e.pos == h.pos + 8 && e.pos <= b.len()
        }),
    ensures
        ({
            let h = next(b, next(b, blank(b, c)));
            let pair = |i: int| byte(b[h.pos + i] as char, b[h.pos + i + 1] as char);
            color_literal(b, c) == Ok::<(u32, Cur), FlutterFault>(
                (rgba(pair(2), pair(4), pair(6), pair(0)) as u32, run_end(b, h, Class::Hex)),
            )
        }),
{
    let h = next(b, next(b, blank(b, c)));
    lemma_spelled(b, h);
}

proof fn lemma_spelled(b: Seq<u8>, h: Cur)
    requires
        0 <= h.pos,
        run_end(b, h, Class::Hex).pos == h.pos + 8,
        h.pos + 8 <= b.len(),
    ensures
        ({
            let hex = between(b, h, run_end(b, h, Class::Hex));
            let pair = |i: int| byte(b[h.pos + i] as char, b[h.pos + i + 1] as char);
            is_hex_u32(hex) && rgba_of_argb(hex_value(hex)) == rgba(pair(2), pair(4), pair(6), pair(0))
        }),
{
    let e = run_end(b, h, Class::Hex);
    let hex = between(b, h, e);
    assert(hex.len() == 8);
    assert forall|k: int| 0 <= k < hex.len() implies is_hex(#[trigger] hex[k]) by {
        lemma_hex_run(b, h, h.pos + k);
    }
    lemma_eight(hex);
    assert(hex[0] == b[h.pos + 0] as char && hex[1] == b[h.pos + 1] as char);
    assert(hex[2] == b[h.pos + 2] as char && hex[3] == b[h.pos + 3] as char);
    assert(hex[4] == b[h.pos + 4] as char && hex[5] == b[h.pos + 5] as char);
    assert(hex[6] == b[h.pos + 6] as char && hex[7] == b[h.pos + 7] as char);
}

proof fn lemma_eight(hex: Seq<char>)
    requires
        hex.len() == 8,
        forall|k: int| 0 <= k < hex.len() ==> is_hex(#[trigger] hex[k]),
    ensures
        is_hex_u32(hex),
        rgba_of_argb(hex_value(hex)) == rgba(
            byte(hex[2], hex[3]),
            byte(hex[4], hex[5]),
            byte(hex[6], hex[7]),
            byte(hex[0], hex[1]),
        ),
{
    assert(hex.take(0) =~= Seq::<char>::empty());
    lemma_pair(hex, 0);
    lemma_pair(hex, 2);
    lemma_pair(hex, 4);
    lemma_pair(hex, 6);
    assert(hex.take(8) =~= hex);
    assert(hex_value(hex) == rgba(
        byte(hex[0], hex[1]),
        byte(hex[2], hex[3]),
        byte(hex[4], hex[5]),
        byte(hex[6], hex[7]),
    ));
    law_opacity_moves_to_the_end(
        byte(hex[0], hex[1]),
        byte(hex[2], hex[3]),
        byte(hex[4], hex[5]),
        byte(hex[6], hex[7]),
    );
}

/// A colour among the values is the one that its literal writes.
pub proof fn law_flutter_color_is_its_literal(b: Seq<u8>, c: Cur)
    requires
        ({
            let c0 = blank(b, c);
            let e = run_end(b, c0, Class::Word);
            &&& at(b, c0) matches Some(x) && x != 34 && x != 39 && x != 91 && x != 45 && !digit(x)
            &&& between(b, c0, e) == "Color"@
            &&& at(b, blank(b, e)) == Some(40u8)
        }),
    ensures
        ({
            let inner = blank(b, next(b, blank(b, run_end(b, blank(b, c), Class::Word))));
            flutter_value(b, c) matches Ok((v, _)) ==> (color_literal(b, inner) matches Ok((color, _)) && v
                == FlutterValue::Color(color))
        }),
{
    reveal_strlit("Color");
    reveal_strlit("true");
    reveal_strlit("false");
    reveal_strlit("");
    assert("Color"@.len() == 5 && "true"@.len() == 4 && "false"@.len() == 5 && ""@.len() == 0);
    assert("Color"@[0] == 'C' && "false"@[0] == 'f');
}

/// An integer of Flutter is the whole part of the number that is written.
pub proof fn law_flutter_integer_is_the_whole_number(text: Seq<char>, fl: Unit)
    ensures
        ({
            let x = answer(fl, FloatQuery::Read { text });
            let v = literal_value(FlutterValue::Int(text), fl);
            &&& x <= 0x7FF0_0000_0000_0000 && whole(x) <= i64::MAX ==> v == Some(ValueModel::Int(whole(x) as i64))
            &&& 0x8000_0000_0000_0000 < x <= 0xFFF0_0000_0000_0000 && -whole(x) >= i64::MIN ==> v == Some(
                ValueModel::Int((-whole(x)) as i64),
            )
        }),
{
    law_rounding_goes_towards_zero(
        answer(fl, FloatQuery::Read { text }),
        i64::MIN as int,
        i64::MAX as int,
    );
}

/// A source of Flutter is the widget that its first call is: what would be that widget as an argument
/// is that widget as a source.
pub proof fn law_flutter_source_is_its_first_call(b: Seq<u8>, w: FlutterWidget, f: Cur)
    requires
        flutter_value(b, start()) == Ok::<(FlutterValue, Cur), FlutterFault>((FlutterValue::Widget(w), f)),
        w.kind != "TextStyle"@,
    ensures
        source_widget(b) == Ok::<Option<FlutterWidget>, FlutterFault>(Some(w)),
{
    reveal_strlit("");
    assert(""@.len() == 0);
    let c0 = blank(b, start());
    let c1 = run_end(b, c0, Class::Word);
    let c2 = blank(b, c1);
    let word = between(b, c0, c1);
    assert(word.len() == 0 ==> word =~= ""@);
    lemma_blank_twice(b, c1);
    assert(at(b, c0) is Some && word.len() > 0);
    assert(at(b, c2) == Some(40u8));
    assert(args_at(b, next(b, c2), Seq::empty()) is Ok);
}

proof fn lemma_blank_twice(b: Seq<u8>, c: Cur)
    ensures
        blank(b, blank(b, c)) == blank(b, c),
    decreases b.len() - c.pos,
{
    if 0 <= c.pos < b.len() && in_class(Class::Space, b[c.pos]) {
        lemma_blank_twice(b, next(b, c));
    }
}

/// What an argument that is no literal is called where it is left out.
pub open spec fn left_out(key: Seq<char>, v: FlutterValue) -> Seq<char> {
    "prop '"@ + key + "' = "@ + if v is Widget {
        "widget-expr"@
    } else if v is List {
        "list"@
    } else {
        "ident-expr"@
    }
}

/// The longer list begins with the shorter one.
pub open spec fn begins<A>(longer: Seq<A>, shorter: Seq<A>) -> bool {
    shorter.len() <= longer.len() && longer.take(shorter.len() as int) == shorter
}

proof fn lemma_begins<A>(a: Seq<A>, b: Seq<A>, c: Seq<A>)
    requires
        begins(c, b),
        begins(b, a),
    ensures
        begins(c, a),
{
    assert(c.take(a.len() as int) =~= b.take(a.len() as int)) by {
        assert forall|i: int| 0 <= i < a.len() implies c[i] == b[i] by {
            assert(c.take(b.len() as int)[i] == b[i]);
        }
    }
}

proof fn lemma_lowered_begins(w: FlutterWidget, d: DocModel, un: Seq<Skipped>, fl: Unit)
    ensures
        begins(lowered(w, d, un, fl).1, un),
    decreases w, w.args.len() + 1, 0int,
{
    let id = NodeId(d.next_id);
    let d1 = created(d, node_kind(w.kind));
    let d2 = match w.positional {
        Some(s) => sys(
            d1,
            MutationModel::SetProp { id, key: "content"@, value: ValueModel::Text(s) },
        ),
        None => d1,
    };
    lemma_args_begin(w, id, 0, d2, un, fl);
}

proof fn lemma_args_begin(w: FlutterWidget, id: NodeId, i: int, d: DocModel, un: Seq<Skipped>, fl: Unit)
    ensures
        begins(lowered_args(w, id, i, d, un, fl).1, un),
    decreases w, w.args.len() - i, 1int,
{
    assert(un.take(un.len() as int) =~= un);
    if 0 <= i < w.args.len() {
        let (d1, un1) = lemma_arg(w, id, i, d, un, fl);
        lemma_args_begin(w, id, i + 1, d1, un1, fl);
        lemma_begins(un, un1, lowered_args(w, id, i, d, un, fl).1);
    }
}

proof fn lemma_arg(w: FlutterWidget, id: NodeId, i: int, d: DocModel, un: Seq<Skipped>, fl: Unit) -> (r: (
    DocModel,
    Seq<Skipped>,
))
    requires
        0 <= i < w.args.len(),
    ensures
        begins(r.1, un),
        lowered_args(w, id, i, d, un, fl) == lowered_args(w, id, i + 1, r.0, r.1, fl),
        !structural(w.args[i].0) && (w.args[i].1 is Widget || w.args[i].1 is List || w.args[i].1 is Ident) ==> r.1
            == un.push(Skipped { line: w.args[i].2, text: left_out(w.args[i].0, w.args[i].1) }),
        !structural(w.args[i].0) && !(w.args[i].1 is Widget || w.args[i].1 is List || w.args[i].1 is Ident) ==> r.1
            == un,
    decreases w, w.args.len() - i, 0int,
{
    let key = w.args[i].0;
    let v = w.args[i].1;
    assert(un.take(un.len() as int) =~= un);
    assert(forall|o: Skipped| #[trigger] un.push(o).take(un.len() as int) =~= un);
    if key == "child"@ {
        if let FlutterValue::Widget(cw) = v {
            lemma_lowered_begins(cw, d, un, fl);
            let (dc, unc) = lowered(cw, d, un, fl);
            (
                sys(
                    dc,
                    MutationModel::AppendChild { parent: id, child: NodeId(d.next_id) },
                ),
                unc,
            )
        } else {
            (d, un)
        }
    } else if key == "children"@ {
        if let FlutterValue::List(items) = v {
            lemma_items_begin(items, id, 0, d, un, fl);
            lowered_items(items, id, 0, d, un, fl)
        } else {
            (d, un)
        }
    } else if key == "onPressed"@ || key == "onTap"@ {
        (
            sys(
                d,
                MutationModel::SetCallback {
                    id,
                    event: "click"@,
                    action: ActionModel { name: action_name(key, v), args: Seq::empty() },
                },
            ),
            un,
        )
    } else if key == "style"@ {
        if let FlutterValue::Widget(sw) = v {
            (styled(id, sw.args, 0, d, fl), un)
        } else {
            (d, un)
        }
    } else {
        let name = if key == "color"@ && w.kind != "Text"@ {
            "background"@
        } else {
            node_prop(key)->0
        };
        match literal_value(v, fl) {
            Some(value) => (sys(d, MutationModel::SetProp { id, key: name, value }), un),
            None => (d, un.push(Skipped { line: w.args[i].2, text: left_out(key, v) })),
        }
    }
}

proof fn lemma_items_begin(
    items: Seq<FlutterValue>,
    id: NodeId,
    j: int,
    d: DocModel,
    un: Seq<Skipped>,
    fl: Unit,
)
    ensures
        begins(lowered_items(items, id, j, d, un, fl).1, un),
    decreases items, items.len() - j, 0int,
{
    assert(un.take(un.len() as int) =~= un);
    if 0 <= j < items.len() {
        match items[j] {
            FlutterValue::Widget(cw) => {
                lemma_lowered_begins(cw, d, un, fl);
                let (dc, unc) = lowered(cw, d, un, fl);
                let d1 = sys(
                    dc,
                    MutationModel::AppendChild { parent: id, child: NodeId(d.next_id) },
                );
                lemma_items_begin(items, id, j + 1, d1, unc, fl);
                lemma_begins(un, unc, lowered_items(items, id, j + 1, d1, unc, fl).1);
            },
            _ => {
                lemma_items_begin(items, id, j + 1, d, un, fl);
            },
        }
    }
}

proof fn lemma_left_out(w: FlutterWidget, id: NodeId, i: int, d: DocModel, un: Seq<Skipped>, fl: Unit, k: int)
    requires
        0 <= i <= k < w.args.len(),
        !structural(w.args[k].0),
        w.args[k].1 is Widget || w.args[k].1 is List || w.args[k].1 is Ident,
    ensures
        lowered_args(w, id, i, d, un, fl).1.contains(
            Skipped { line: w.args[k].2, text: left_out(w.args[k].0, w.args[k].1) },
        ),
    decreases k - i,
{
    let (d1, un1) = lemma_arg(w, id, i, d, un, fl);
    if i < k {
        lemma_left_out(w, id, i + 1, d1, un1, fl, k);
    } else {
        lemma_args_begin(w, id, i + 1, d1, un1, fl);
        let all = lowered_args(w, id, i + 1, d1, un1, fl).1;
        assert(all.take(un1.len() as int)[un.len() as int] == un1[un.len() as int]);
        assert(all[un.len() as int] == un1[un.len() as int]);
    }
}

/// Every argument that is no literal and stands for nothing else is reported, with its line, its name
/// and what it is; what was reported before stays in front.
pub proof fn law_unread_argument_is_reported(w: FlutterWidget, d: DocModel, un: Seq<Skipped>, fl: Unit, k: int)
    requires
        0 <= k < w.args.len(),
        !structural(w.args[k].0),
        w.args[k].1 is Widget || w.args[k].1 is List || w.args[k].1 is Ident,
    ensures
        begins(lowered(w, d, un, fl).1, un),
        lowered(w, d, un, fl).1.contains(
            Skipped { line: w.args[k].2, text: left_out(w.args[k].0, w.args[k].1) },
        ),
{
    let id = NodeId(d.next_id);
    let d1 = created(d, node_kind(w.kind));
    let d2 = match w.positional {
        Some(s) => sys(d1, MutationModel::SetProp { id, key: "content"@, value: ValueModel::Text(s) }),
        None => d1,
    };
    lemma_lowered_begins(w, d, un, fl);
    lemma_left_out(w, id, 0, d2, un, fl, k);
}

/// Where every argument is a literal nothing is reported.
pub proof fn law_literal_arguments_are_all_kept(w: FlutterWidget, d: DocModel, un: Seq<Skipped>, fl: Unit)
    requires
        forall|k: int|
            0 <= k < w.args.len() ==> !structural((#[trigger] w.args[k]).0) && !(w.args[k].1 is Widget)
                && !(w.args[k].1 is List) && !(w.args[k].1 is Ident),
    ensures
        lowered(w, d, un, fl).1 == un,
{
    let id = NodeId(d.next_id);
    let d1 = created(d, node_kind(w.kind));
    let d2 = match w.positional {
        Some(s) => sys(d1, MutationModel::SetProp { id, key: "content"@, value: ValueModel::Text(s) }),
        None => d1,
    };
    lemma_all_kept(w, id, 0, d2, un, fl);
}

proof fn lemma_all_kept(w: FlutterWidget, id: NodeId, i: int, d: DocModel, un: Seq<Skipped>, fl: Unit)
    requires
        0 <= i,
        forall|k: int|
            0 <= k < w.args.len() ==> !structural((#[trigger] w.args[k]).0) && !(w.args[k].1 is Widget)
                && !(w.args[k].1 is List) && !(w.args[k].1 is Ident),
    ensures
        lowered_args(w, id, i, d, un, fl).1 == un,
    decreases w.args.len() - i,
{
    if i < w.args.len() {
        let (d1, un1) = lemma_arg(w, id, i, d, un, fl);
        assert(!structural(w.args[i].0));
        lemma_all_kept(w, id, i + 1, d1, un1, fl);
    }
}

/// A source of Slint holds what was read of it and all that comes behind: the elements stay in their
/// order and every component that was named is there.
#[verifier::rlimit(40)]
pub proof fn law_slint_source_keeps_what_it_read(b: Seq<u8>, c: Cur, f: SlintSource)
    ensures
        source_at(b, c, f) matches Ok(g) ==> begins(g.elements, f.elements) && (forall|x: Seq<char>| #[trigger]
            f.components.dom().contains(x) ==> g.components.dom().contains(x)),
    decreases b.len() - c.pos,
{
    assert(f.elements.take(f.elements.len() as int) =~= f.elements);
    let c0 = trivia_end(b, c);
    let c1 = run_end(b, c0, Class::DashedWord);
    let word = between(b, c0, c1);
    let c2 = trivia_end(b, c1);
    if !(at(b, c0) is None || word.len() == 0) && source_at(b, c, f) is Ok {
        if word == "component"@ {
            let (c7, f1) = lemma_component(b, c, f);
            law_slint_source_keeps_what_it_read(b, c7, f1);
            assert forall|x: Seq<char>| #[trigger] f.components.dom().contains(x) implies source_at(
                b,
                c,
                f,
            )->Ok_0.components.dom().contains(x) by {
                assert(f1.components.dom().contains(x));
            }
            assert(begins(f1.elements, f.elements));
            lemma_begins(f.elements, f1.elements, source_at(b, c7, f1)->Ok_0.elements);
        } else {
            let (c3, f1) = lemma_element(b, c, f);
            law_slint_source_keeps_what_it_read(b, c3, f1);
            lemma_begins(f.elements, f1.elements, source_at(b, c3, f1)->Ok_0.elements);
        }
    }
}

proof fn lemma_element(b: Seq<u8>, c: Cur, f: SlintSource) -> (r: (Cur, SlintSource))
    requires
        ({
            let c0 = trivia_end(b, c);
            let word = between(b, c0, run_end(b, c0, Class::DashedWord));
            &&& at(b, c0) is Some && word.len() > 0 && word != "component"@
            &&& source_at(b, c, f) is Ok
        }),
    ensures
        ({
            let c0 = trivia_end(b, c);
            let c1 = run_end(b, c0, Class::DashedWord);
            &&& source_at(b, c, f) == source_at(b, r.0, r.1)
            &&& 0 <= c.pos < r.0.pos <= b.len()
            &&& r.1.components == f.components
            &&& element_at(b, trivia_end(b, c1), between(b, c0, c1), f.unsupported) matches Ok((e, _, _))
                && r.1.elements == f.elements.push(e)
            &&& begins(r.1.elements, f.elements)
        }),
{
    let c0 = trivia_end(b, c);
    let c1 = run_end(b, c0, Class::DashedWord);
    let (e, un1, c3) = element_at(b, trivia_end(b, c1), between(b, c0, c1), f.unsupported)->Ok_0;
    let f1 = SlintSource { elements: f.elements.push(e), unsupported: un1, ..f };
    assert(f1.elements.take(f.elements.len() as int) =~= f.elements);
    (c3, f1)
}

proof fn lemma_component(b: Seq<u8>, c: Cur, f: SlintSource) -> (r: (Cur, SlintSource))
    requires
        ({
            let c0 = trivia_end(b, c);
            let c1 = run_end(b, c0, Class::DashedWord);
            &&& at(b, c0) is Some
            &&& between(b, c0, c1) == "component"@
            &&& source_at(b, c, f) is Ok
        }),
    ensures
        ({
            let c2 = trivia_end(b, run_end(b, trivia_end(b, c), Class::DashedWord));
            let name = between(b, c2, run_end(b, c2, Class::DashedWord));
            &&& source_at(b, c, f) == source_at(b, r.0, r.1)
            &&& 0 <= c.pos < r.0.pos <= b.len()
            &&& r.1.elements == f.elements
            &&& name.len() > 0
            &&& r.1.components.dom() == f.components.dom().insert(name)
        }),
{
    reveal_strlit("component");
    assert("component"@.len() == 9);
    let c0 = trivia_end(b, c);
    let c1 = run_end(b, c0, Class::DashedWord);
    let c2 = trivia_end(b, c1);
    let c3 = run_end(b, c2, Class::DashedWord);
    let name = between(b, c2, c3);
    let c4 = trivia_end(b, c3);
    let c5 = trivia_end(b, run_end(b, c4, Class::DashedWord));
    let c6 = run_end(b, c5, Class::DashedWord);
    let base = between(b, c5, c6);
    let plain = at(b, c4) == Some(123u8);
    let un = if plain || base.len() == 0 {
        f.unsupported
    } else {
        f.unsupported.push(Omission { line: line_at(c4), text: "inherits "@ + base })
    };
    let from = if plain {
        c4
    } else {
        trivia_end(b, c6)
    };
    let (body, un1, c7) = element_at(b, from, "__component__"@, un)->Ok_0;
    let f1 = SlintSource { components: f.components.insert(name, body), unsupported: un1, ..f };
    assert(f1.components.dom() =~= f.components.dom().insert(name));
    (c7, f1)
}

/// The next element of a source is the next among its elements, read by its word and its body, and
/// the next component is there by its name.
pub proof fn law_slint_source_holds_the_next(b: Seq<u8>, c: Cur, f: SlintSource)
    requires
        at(b, trivia_end(b, c)) is Some,
        between(b, trivia_end(b, c), run_end(b, trivia_end(b, c), Class::DashedWord)).len() > 0,
    ensures
        source_at(b, c, f) matches Ok(g) ==> {
            let c0 = trivia_end(b, c);
            let c1 = run_end(b, c0, Class::DashedWord);
            let word = between(b, c0, c1);
            let c2 = trivia_end(b, c1);
            &&& word != "component"@ ==> (element_at(b, c2, word, f.unsupported) matches Ok((e, _, _))
                && g.elements.len() > f.elements.len() && g.elements[f.elements.len() as int] == e)
            &&& word == "component"@ ==> g.components.dom().contains(
                between(b, c2, run_end(b, c2, Class::DashedWord)),
            )
        },
{
    let c0 = trivia_end(b, c);
    let c1 = run_end(b, c0, Class::DashedWord);
    let word = between(b, c0, c1);
    let c2 = trivia_end(b, c1);
    if source_at(b, c, f) is Ok {
        if word == "component"@ {
            let (c7, f1) = lemma_component(b, c, f);
            law_slint_source_keeps_what_it_read(b, c7, f1);
            assert(f1.components.dom().contains(between(b, c2, run_end(b, c2, Class::DashedWord))));
        } else {
            let (c3, f1) = lemma_element(b, c, f);
            let e = f1.elements.last();
            law_slint_source_keeps_what_it_read(b, c3, f1);
            let g = source_at(b, c3, f1)->Ok_0;
            assert(g.elements.take(f1.elements.len() as int)[f.elements.len() as int] == e);
        }
    }
}

} // verus!
