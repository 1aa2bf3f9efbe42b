//! What the parts of Slint and Flutter sources stand for, each by itself.
use vstd::prelude::*;

use crate::flutter_import::{
    args_at, blank, items_at, named_args, positional_name, positional_text, value_at as flutter_value,
    widget_from, FlutterFault, FlutterValue, FlutterWidget,
};
use crate::markup_law::{byte, lemma_pair};
use crate::scan::{
    at, behind, between, closing, digit, is_hex, line_at, literal, next, run_end, trivia_end, Class, Cur,
};
use crate::slint_import::{
    ahead, body_at, color_at, element_at, expected, value_at, Omission, SlintFault, SlintLiteral, SlintNode,
};
use crate::swiftui_law::rgba;

verus! {

/// An element with the properties and children of a second one behind its own.
pub open spec fn continued(e: SlintNode, g: SlintNode) -> SlintNode {
    SlintNode { kind: e.kind, props: e.props + g.props, children: e.children + g.children }
}

/// An element of no kind with nothing in it.
pub open spec fn nothing() -> SlintNode {
    SlintNode { kind: Seq::empty(), props: Seq::empty(), children: Seq::empty() }
}

/// The second reading is the first with an element and omissions in front.
pub open spec fn carried(
    e: SlintNode,
    un: Seq<Omission>,
    bare: Result<(SlintNode, Seq<Omission>, Cur), SlintFault>,
    full: Result<(SlintNode, Seq<Omission>, Cur), SlintFault>,
) -> bool {
    match (bare, full) {
        (Ok((g, o, c)), Ok((w, p, d))) => c == d && w == continued(e, g) && p == un + o,
        (Err(f), Err(g)) => f == g,
        _ => false,
    }
}

proof fn lemma_element(b: Seq<u8>, c: Cur, kind: Seq<char>, un: Seq<Omission>, more: Seq<Omission>)
    ensures
        match (element_at(b, c, kind, more), element_at(b, c, kind, un + more)) {
            (Ok((g, o, x)), Ok((w, p, y))) => x == y && w == g && p == un + o,
            (Err(f), Err(g)) => f == g,
            _ => false,
        },
    decreases b.len() - c.pos, 0int,
{
    if let Ok(c1) = expected(b, c, 123) {
        if ahead(b, c, c1) {
            let e = SlintNode { kind, props: Seq::empty(), children: Seq::empty() };
            lemma_body(b, c1, e, un, e, more);
            assert(continued(e, e).props =~= e.props);
            assert(continued(e, e).children =~= e.children);
            if let Ok((g, _, _)) = body_at(b, c1, e, more) {
                assert(continued(e, g).props =~= g.props);
                assert(continued(e, g).children =~= g.children);
                lemma_kind(b, c1, e, more);
            }
        }
    }
}

proof fn lemma_kind(b: Seq<u8>, c: Cur, e: SlintNode, un: Seq<Omission>)
    ensures
        body_at(b, c, e, un) matches Ok((g, _, _)) ==> g.kind == e.kind,
    decreases b.len() - c.pos,
{
    let c0 = trivia_end(b, c);
    let c1 = run_end(b, c0, Class::DashedWord);
    let key = between(b, c0, c1);
    let c2 = trivia_end(b, c1);
    let c3 = trivia_end(b, next(b, c2));
    if at(b, c0) == Some(125u8) || at(b, c0) is None || key.len() == 0 {
    } else if at(b, c2) == Some(58u8) {
        if at(b, c3) == Some(60u8) {
            let c4 = behind(b, c3, 59);
            let o = Omission { line: line_at(c3), text: "two-way binding on '"@ + key + "'"@ };
            if ahead(b, c, c4) {
                lemma_kind(b, c4, e, un.push(o));
            }
        } else if let Ok((v, c4)) = value_at(b, c3) {
            if let Ok(c5) = expected(b, trivia_end(b, c4), 59) {
                if ahead(b, c, c5) {
                    lemma_kind(b, c5, SlintNode { props: e.props.push((key, v)), ..e }, un);
                }
            }
        }
    } else if at(b, c2) == Some(123u8) {
        if ahead(b, c, c2) {
            if let Ok((child, un1, c4)) = element_at(b, c2, key, un) {
                if ahead(b, c, c4) {
                    lemma_kind(b, c4, SlintNode { children: e.children.push(child), ..e }, un1);
                }
            }
        }
    } else if at(b, c2) == Some(61u8) {
        let c6 = handler_end(b, c3);
        let o = Omission { line: line_at(c2), text: "callback handler '"@ + key + "'"@ };
        if ahead(b, c, c6) {
            lemma_kind(b, c6, e, un.push(o));
        }
    }
}

/// The place behind a callback handler whose arrow begins at a place: behind the brace that closes
/// it, or behind its semicolon.
pub open spec fn handler_end(b: Seq<u8>, c: Cur) -> Cur {
    let from = trivia_end(
        b,
        if at(b, c) == Some(62u8) {
            next(b, c)
        } else {
            c
        },
    );
    if at(b, from) == Some(123u8) {
        closing(b, next(b, from), 123, 125, 1)
    } else {
        behind(b, from, 59)
    }
}

proof fn lemma_body(b: Seq<u8>, c: Cur, e: SlintNode, un: Seq<Omission>, g: SlintNode, more: Seq<Omission>)
    ensures
        carried(e, un, body_at(b, c, g, more), body_at(b, c, continued(e, g), un + more)),
    decreases b.len() - c.pos, 1int,
{
    let c0 = trivia_end(b, c);
    let c1 = run_end(b, c0, Class::DashedWord);
    let key = between(b, c0, c1);
    let c2 = trivia_end(b, c1);
    let c3 = trivia_end(b, next(b, c2));
    if at(b, c0) == Some(125u8) || at(b, c0) is None || key.len() == 0 {
    } else if at(b, c2) == Some(58u8) {
        if at(b, c3) == Some(60u8) {
            let c4 = behind(b, c3, 59);
            let o = Omission { line: line_at(c3), text: "two-way binding on '"@ + key + "'"@ };
            assert((un + more).push(o) =~= un + more.push(o));
            if ahead(b, c, c4) {
                lemma_body(b, c4, e, un, g, more.push(o));
            }
        } else if let Ok((v, c4)) = value_at(b, c3) {
            if let Ok(c5) = expected(b, trivia_end(b, c4), 59) {
                if ahead(b, c, c5) {
                    assert((e.props + g.props).push((key, v)) =~= e.props + g.props.push((key, v)));
                    lemma_body(b, c5, e, un, SlintNode { props: g.props.push((key, v)), ..g }, more);
                }
            }
        }
    } else if at(b, c2) == Some(123u8) {
        if ahead(b, c, c2) {
            lemma_element(b, c2, key, un, more);
            if let Ok((child, un1, c4)) = element_at(b, c2, key, more) {
                if ahead(b, c, c4) {
                    assert((e.children + g.children).push(child) =~= e.children + g.children.push(child));
                    lemma_body(b, c4, e, un, SlintNode { children: g.children.push(child), ..g }, un1);
                }
            }
        }
    } else if at(b, c2) == Some(61u8) {
        let c6 = handler_end(b, c3);
        let o = Omission { line: line_at(c2), text: "callback handler '"@ + key + "'"@ };
        assert((un + more).push(o) =~= un + more.push(o));
        if ahead(b, c, c6) {
            lemma_body(b, c6, e, un, g, more.push(o));
        }
    }
}

/// What stands in a body means the same whatever stands before it: its properties, children and
/// omissions come behind those that were read, and it ends, or fails, in the same place.
pub proof fn law_body_means_the_same_everywhere(b: Seq<u8>, c: Cur, e: SlintNode, un: Seq<Omission>)
    ensures
        carried(e, un, body_at(b, c, nothing(), Seq::empty()), body_at(b, c, e, un)),
{
    lemma_body(b, c, e, un, nothing(), Seq::empty());
    assert(continued(e, nothing()).props =~= e.props);
    assert(continued(e, nothing()).children =~= e.children);
    assert(un + Seq::<Omission>::empty() =~= un);
}

/// A body with one property in it.
pub open spec fn with_prop(key: Seq<char>, v: SlintLiteral) -> SlintNode {
    SlintNode { props: seq![(key, v)], ..nothing() }
}

/// A body with one child in it.
pub open spec fn with_child(child: SlintNode) -> SlintNode {
    SlintNode { children: seq![child], ..nothing() }
}

/// Each entry of a body leaves what it is: a name with a value is a property, a name with a body is
/// a child of that kind, and a two-way binding and a callback handler are omissions with their
/// names and lines. What follows is read as if it stood first.
pub proof fn law_entry_leaves_what_it_is(b: Seq<u8>, c: Cur, g: SlintNode, o: Seq<Omission>, d: Cur)
    requires
        body_at(b, c, nothing(), Seq::empty()) == Ok::<(SlintNode, Seq<Omission>, Cur), SlintFault>((g, o, d)),
    ensures
        ({
            let c0 = trivia_end(b, c);
            let c1 = run_end(b, c0, Class::DashedWord);
            let key = between(b, c0, c1);
            let c2 = trivia_end(b, c1);
            let c3 = trivia_end(b, next(b, c2));
            let r = Ok::<(SlintNode, Seq<Omission>, Cur), SlintFault>((g, o, d));
            if at(b, c0) == Some(125u8) {
                g == nothing() && o.len() == 0 && d == next(b, c0)
            } else if at(b, c2) == Some(58u8) && at(b, c3) == Some(60u8) {
                carried(
                    nothing(),
                    seq![Omission { line: line_at(c3), text: "two-way binding on '"@ + key + "'"@ }],
                    body_at(b, behind(b, c3, 59), nothing(), Seq::empty()),
                    r,
                )
            } else if at(b, c2) == Some(58u8) {
                match value_at(b, c3) {
                    Ok((v, k)) => {
                        let semicolon = trivia_end(b, trivia_end(b, k));
                        &&& at(b, semicolon) == Some(59u8)
                        &&& carried(
                            with_prop(key, v),
                            Seq::empty(),
                            body_at(b, next(b, semicolon), nothing(), Seq::empty()),
                            r,
                        )
                    },
                    Err(_) => false,
                }
            } else if at(b, c2) == Some(123u8) {
                match element_at(b, c2, key, Seq::empty()) {
                    Ok((child, un, k)) => child.kind == key && carried(
                        with_child(child),
                        un,
                        body_at(b, k, nothing(), Seq::empty()),
                        r,
                    ),
                    Err(_) => false,
                }
            } else {
                at(b, c2) == Some(61u8) && carried(
                    nothing(),
                    seq![Omission { line: line_at(c2), text: "callback handler '"@ + key + "'"@ }],
                    body_at(b, handler_end(b, c3), nothing(), Seq::empty()),
                    r,
                )
            }
        }),
{
    let c0 = trivia_end(b, c);
    let c1 = run_end(b, c0, Class::DashedWord);
    let key = between(b, c0, c1);
    let c2 = trivia_end(b, c1);
    let c3 = trivia_end(b, next(b, c2));
    let none = Seq::<Omission>::empty();
    if at(b, c0) == Some(125u8) {
    } else if at(b, c2) == Some(58u8) && at(b, c3) == Some(60u8) {
        let x = Omission { line: line_at(c3), text: "two-way binding on '"@ + key + "'"@ };
        assert(none.push(x) =~= seq![x]);
        law_body_means_the_same_everywhere(b, behind(b, c3, 59), nothing(), seq![x]);
    } else if at(b, c2) == Some(58u8) {
        if let Ok((v, k)) = value_at(b, c3) {
            let semicolon = trivia_end(b, trivia_end(b, k));
            assert(nothing().props.push((key, v)) =~= seq![(key, v)]);
            law_body_means_the_same_everywhere(b, next(b, semicolon), with_prop(key, v), none);
        }
    } else if at(b, c2) == Some(123u8) {
        if let Ok((child, un, k)) = element_at(b, c2, key, none) {
            assert(nothing().children.push(child) =~= seq![child]);
            law_body_means_the_same_everywhere(b, k, with_child(child), un);
            if let Ok(c4) = expected(b, c2, 123) {
                lemma_kind(b, c4, SlintNode { kind: key, props: Seq::empty(), children: Seq::empty() }, none);
            }
        }
    } else {
        let x = Omission { line: line_at(c2), text: "callback handler '"@ + key + "'"@ };
        assert(none.push(x) =~= seq![x]);
        law_body_means_the_same_everywhere(b, handler_end(b, c3), nothing(), seq![x]);
    }
}

/// A text in quotes is that text, digits are a number and with `px` behind them a length, and the
/// words for truth are truth; any other word is itself.
pub proof fn law_slint_values_are_themselves(b: Seq<u8>, c: Cur)
    ensures
        ({
            let c0 = trivia_end(b, c);
            let e = run_end(b, c0, Class::DashedWord);
            let word = between(b, c0, e);
            let n = run_end(b, c0, Class::Decimal);
            let unit = trivia_end(b, n);
            match at(b, c0) {
                None => value_at(b, c) is Err,
                Some(x) => {
                    &&& x == 34 ==> match literal(b, next(b, c0), 34, true, Seq::empty()) {
                        Ok((text, f)) => value_at(b, c) == Ok::<(SlintLiteral, Cur), SlintFault>(
                            (SlintLiteral::Str(text), f),
                        ),
                        Err(_) => value_at(b, c) is Err,
                    }
                    &&& 48 <= x <= 57 ==> (value_at(b, c) matches Ok((t, f)) && if at(b, unit) == Some(112u8) && at(
                        b,
                        next(b, unit),
                    ) == Some(120u8) {
                        t == SlintLiteral::Px(between(b, c0, n)) && f == next(b, next(b, unit))
                    } else {
                        t == SlintLiteral::Float(between(b, c0, n)) && f == unit
                    })
                    &&& x != 34 && x != 35 && !(48 <= x <= 57) ==> value_at(b, c) == Ok::<
                        (SlintLiteral, Cur),
                        SlintFault,
                    >(
                        (
                            if word == "true"@ {
                                SlintLiteral::Bool(true)
                            } else if word == "false"@ {
                                SlintLiteral::Bool(false)
                            } else {
                                SlintLiteral::Ident(word)
                            },
                            e,
                        ),
                    )
                },
            }
        }),
{
    reveal_strlit("true");
    reveal_strlit("false");
    assert("true"@.len() == 4 && "false"@.len() == 5);
}

pub proof fn lemma_hex_run(b: Seq<u8>, c: Cur, i: int)
    requires
        0 <= c.pos <= i < run_end(b, c, Class::Hex).pos,
    ensures
        i < b.len(),
        is_hex(b[i] as char),
    decreases b.len() - c.pos,
{
    if 0 <= c.pos < b.len() && crate::scan::in_class(Class::Hex, b[c.pos]) {
        if c.pos < i {
            lemma_hex_run(b, next(b, c), i);
        }
    }
}

/// A colour behind a `#` is written by its red, green and blue, two hexadecimal digits each, with
/// two more for how opaque it is; without those it is opaque.
pub proof fn law_slint_color_is_written_by_its_bytes(b: Seq<u8>, c: Cur)
    requires
        0 <= c.pos,
        ({
            let n = run_end(b, c, Class::Hex).pos - c.pos;
            n == 6 || n == 8
        }),
        run_end(b, c, Class::Hex).pos <= b.len(),
    ensures
        ({
            let e = run_end(b, c, Class::Hex);
            let p = c.pos;
            let pair = |i: int| byte(b[p + i] as char, b[p + i + 1] as char);
            color_at(b, c) matches Ok((v, f)) && f == e && v == rgba(
                pair(0),
                pair(2),
                pair(4),
                if e.pos - p == 8 {
                    pair(6)
                } else {
                    255
                },
            )
        }),
{
    let e = run_end(b, c, Class::Hex);
    let hex = between(b, c, e);
    assert forall|k: int| 0 <= k < hex.len() implies is_hex(#[trigger] hex[k]) by {
        lemma_hex_run(b, c, c.pos + k);
    }
    assert(hex.take(0) =~= Seq::<char>::empty());
    lemma_pair(hex, 0);
    lemma_pair(hex, 2);
    lemma_pair(hex, 4);
    if hex.len() == 8 {
        lemma_pair(hex, 6);
        assert(hex.take(8) =~= hex);
    } else {
        assert(hex.take(6) =~= hex);
    }
}

/// The arguments of a call mean the same whatever stands before them.
pub proof fn law_arguments_come_in_order(b: Seq<u8>, c: Cur, acc: Seq<(Seq<char>, FlutterValue, int)>)
    ensures
        match (args_at(b, c, Seq::empty()), args_at(b, c, acc)) {
            (Ok((x, i)), Ok((y, j))) => i == j && y == acc + x,
            (Err(f), Err(g)) => f == g,
            _ => false,
        },
{
    lemma_args(b, c, acc, Seq::empty());
    assert(acc + Seq::<(Seq<char>, FlutterValue, int)>::empty() =~= acc);
}

proof fn lemma_args(
    b: Seq<u8>,
    c: Cur,
    p: Seq<(Seq<char>, FlutterValue, int)>,
    q: Seq<(Seq<char>, FlutterValue, int)>,
)
    ensures
        match (args_at(b, c, q), args_at(b, c, p + q)) {
            (Ok((x, i)), Ok((y, j))) => i == j && y == p + x,
            (Err(f), Err(g)) => f == g,
            _ => false,
        },
    decreases b.len() - c.pos,
{
    let c0 = blank(b, c);
    if at(b, c0) != Some(41u8) && at(b, c0) is Some {
        let c1 = run_end(b, c0, Class::Word);
        let word = between(b, c0, c1);
        let c2 = blank(b, c1);
        let named = word.len() > 0 && at(b, c2) == Some(58u8);
        let from = if named {
            next(b, c2)
        } else {
            c0
        };
        if let Ok((v, c3)) = flutter_value(b, from) {
            let c4 = blank(b, c3);
            let c5 = if at(b, c4) == Some(44u8) {
                next(b, c4)
            } else {
                c4
            };
            let x = (
                if named {
                    word
                } else {
                    positional_name()
                },
                v,
                line_at(c0),
            );
            assert((p + q).push(x) =~= p + q.push(x));
            if crate::flutter_import::ahead(b, c, c5) {
                lemma_args(b, c5, p, q.push(x));
            }
        }
    }
}

proof fn lemma_items(b: Seq<u8>, c: Cur, p: Seq<FlutterValue>, q: Seq<FlutterValue>)
    ensures
        match (items_at(b, c, q), items_at(b, c, p + q)) {
            (Ok((x, i)), Ok((y, j))) => i == j && y == p + x,
            (Err(f), Err(g)) => f == g,
            _ => false,
        },
    decreases b.len() - c.pos,
{
    let c0 = blank(b, c);
    if at(b, c0) != Some(93u8) && at(b, c0) is Some {
        if let Ok((v, c1)) = flutter_value(b, c0) {
            let c2 = blank(b, c1);
            let c3 = if at(b, c2) == Some(44u8) {
                next(b, c2)
            } else {
                c2
            };
            assert((p + q).push(v) =~= p + q.push(v));
            if crate::flutter_import::ahead(b, c, c3) {
                lemma_items(b, c3, p, q.push(v));
            }
        }
    }
}

/// The place behind a comma, where one stands.
pub open spec fn past_comma(b: Seq<u8>, c: Cur) -> Cur {
    if at(b, c) == Some(44u8) {
        next(b, c)
    } else {
        c
    }
}

/// An argument with a name and a colon is of that name, any other is without one; each has its value
/// and the line that it begins on, and what follows is read as if it stood first. The items of a
/// list come in the order written.
pub proof fn law_argument_has_its_name_and_value(b: Seq<u8>, c: Cur)
    ensures
        args_at(b, c, Seq::empty()) matches Ok((args, e)) ==> {
            let c0 = blank(b, c);
            let c1 = run_end(b, c0, Class::Word);
            let word = between(b, c0, c1);
            let c2 = blank(b, c1);
            let named = word.len() > 0 && at(b, c2) == Some(58u8);
            let from = if named {
                next(b, c2)
            } else {
                c0
            };
            if at(b, c0) == Some(41u8) {
                args.len() == 0 && e == next(b, c0)
            } else {
                match flutter_value(b, from) {
                    Err(_) => false,
                    Ok((v, k)) => args_at(b, past_comma(b, blank(b, k)), Seq::empty()) matches Ok((rest, f)) && f == e
                        && args == seq![
                        (
                            if named {
                                word
                            } else {
                                "__positional__"@
                            },
                            v,
                            line_at(c0),
                        ),
                    ] + rest,
                }
            }
        },
        items_at(b, c, Seq::empty()) matches Ok((items, e)) ==> {
            let c0 = blank(b, c);
            if at(b, c0) == Some(93u8) {
                items.len() == 0 && e == next(b, c0)
            } else {
                match flutter_value(b, c0) {
                    Err(_) => false,
                    Ok((v, k)) => items_at(b, past_comma(b, blank(b, k)), Seq::empty()) matches Ok((rest, f)) && f == e
                        && items == seq![v] + rest,
                }
            }
        },
{
    let c0 = blank(b, c);
    let c1 = run_end(b, c0, Class::Word);
    let word = between(b, c0, c1);
    let c2 = blank(b, c1);
    let named = word.len() > 0 && at(b, c2) == Some(58u8);
    let from = if named {
        next(b, c2)
    } else {
        c0
    };
    if at(b, c0) != Some(41u8) {
        if let Ok((v, k)) = flutter_value(b, from) {
            let x = (
                if named {
                    word
                } else {
                    positional_name()
                },
                v,
                line_at(c0),
            );
            let none = Seq::<(Seq<char>, FlutterValue, int)>::empty();
            assert(none.push(x) =~= seq![x] + none);
            lemma_args(b, past_comma(b, blank(b, k)), seq![x], none);
        }
    }
    if at(b, c0) != Some(93u8) {
        if let Ok((v, k)) = flutter_value(b, c0) {
            let none = Seq::<FlutterValue>::empty();
            assert(none.push(v) =~= seq![v] + none);
            lemma_items(b, past_comma(b, blank(b, k)), seq![v], none);
        }
    }
}

proof fn lemma_named(args: Seq<(Seq<char>, FlutterValue, int)>, i: int, x: (Seq<char>, FlutterValue, int))
    requires
        0 <= i <= args.len(),
    ensures
        named_args(args, i).contains(x) <==> x.0 != "__positional__"@ && args.take(i).contains(x),
        named_args(args, i).len() <= i,
    decreases i,
{
    if i > 0 {
        lemma_named(args, i - 1, x);
        let a = args.take(i - 1);
        let b = args.take(i);
        assert(b =~= a.push(args[i - 1]));
        let before = named_args(args, i - 1);
        let y = args[i - 1];
        if a.contains(x) {
            let k = a.index_of(x);
            assert(b[k] == x);
        }
        assert(b[i - 1] == y);
        if b.contains(x) && x != y {
            let k = b.index_of(x);
            assert(a[k] == x);
        }
        if before.contains(x) {
            let k = before.index_of(x);
            assert(before.push(y)[k] == x);
        }
        assert(before.push(y)[before.len() as int] == y);
        if before.push(y).contains(x) && x != y {
            let k = before.push(y).index_of(x);
            assert(before[k] == x);
        }
    } else {
        assert(args.take(0) =~= Seq::<(Seq<char>, FlutterValue, int)>::empty());
    }
}

/// A widget has exactly the arguments with a name among those that were written, and its text is the
/// last text without one.
pub proof fn law_widget_has_its_arguments(
    kind: Seq<char>,
    args: Seq<(Seq<char>, FlutterValue, int)>,
    x: (Seq<char>, FlutterValue, int),
    k: int,
)
    ensures
        ({
            let w = widget_from(kind, args);
            &&& w.kind == kind
            &&& w.args.contains(x) <==> x.0 != "__positional__"@ && args.contains(x)
            &&& 0 <= k < args.len() && args[k].0 == "__positional__"@ && args[k].1 is Str && (forall|j: int|
                k < j < args.len() ==> !((#[trigger] args[j]).0 == "__positional__"@ && args[j].1 is Str))
                ==> w.positional == Some(args[k].1->Str_0)
            &&& (forall|j: int|
                0 <= j < args.len() ==> !((#[trigger] args[j]).0 == "__positional__"@ && args[j].1 is Str))
                ==> w.positional is None
        }),
{
    lemma_named(args, args.len() as int, x);
    assert(args.take(args.len() as int) =~= args);
    if forall|j: int| 0 <= j < args.len() ==> !((#[trigger] args[j]).0 == "__positional__"@ && args[j].1 is Str) {
        lemma_no_text(args, 0, args.len() as int);
    }
    if 0 <= k < args.len() && args[k].0 == "__positional__"@ && args[k].1 is Str && (forall|j: int|
        k < j < args.len() ==> !((#[trigger] args[j]).0 == "__positional__"@ && args[j].1 is Str)) {
        lemma_no_text(args, k + 1, args.len() as int);
    }
}

proof fn lemma_no_text(args: Seq<(Seq<char>, FlutterValue, int)>, k: int, i: int)
    requires
        0 <= k <= i <= args.len(),
        forall|j: int| k <= j < i ==> !((#[trigger] args[j]).0 == "__positional__"@ && args[j].1 is Str),
    ensures
        positional_text(args, i) == positional_text(args, k),
    decreases i,
{
    if k < i {
        assert(!(args[i - 1].0 == "__positional__"@ && args[i - 1].1 is Str));
        lemma_no_text(args, k, i - 1);
    }
}

/// The bits of a colour with how opaque it is first are those of the same colour with it last.
pub proof fn law_opacity_moves_to_the_end(a: int, r: int, g: int, b: int)
    requires
        0 <= a <= 255 && 0 <= r <= 255 && 0 <= g <= 255 && 0 <= b <= 255,
    ensures
        crate::flutter_import::rgba_of_argb(rgba(a, r, g, b)) == rgba(r, g, b, a),
{
}

/// A text in quotes of either kind is that text, a number with a fraction is a double and one
/// without is an integer, both as written, and the words for truth are truth.
pub proof fn law_flutter_values_are_themselves(b: Seq<u8>, c: Cur)
    ensures
        ({
            let c0 = blank(b, c);
            let e = run_end(b, c0, Class::Word);
            let word = between(b, c0, e);
            let (n, fraction) = crate::flutter_import::number_end(b, c0);
            match at(b, c0) {
                None => flutter_value(b, c) is Err,
                Some(x) => {
                    &&& x == 34 || x == 39 ==> match literal(b, next(b, c0), x, true, Seq::empty()) {
                        Ok((text, f)) => flutter_value(b, c) == Ok::<(FlutterValue, Cur), FlutterFault>(
                            (FlutterValue::Str(text), f),
                        ),
                        Err(_) => flutter_value(b, c) is Err,
                    }
                    &&& 48 <= x <= 57 || x == 45 ==> flutter_value(b, c) == Ok::<(FlutterValue, Cur), FlutterFault>(
                        (
                            if fraction {
                                FlutterValue::Float(between(b, c0, n))
                            } else {
                                FlutterValue::Int(between(b, c0, n))
                            },
                            n,
                        ),
                    )
                    &&& x != 34 && x != 39 && x != 91 && x != 45 && !digit(x) ==> {
                        &&& word == "true"@ ==> flutter_value(b, c) == Ok::<(FlutterValue, Cur), FlutterFault>(
                            (FlutterValue::Bool(true), e),
                        )
                        &&& word == "false"@ ==> flutter_value(b, c) == Ok::<(FlutterValue, Cur), FlutterFault>(
                            (FlutterValue::Bool(false), e),
                        )
                        &&& word.len() > 0 && word != "true"@ && word != "false"@ && at(b, blank(b, e)) != Some(40u8)
                            ==> flutter_value(b, c) == Ok::<(FlutterValue, Cur), FlutterFault>(
                            (FlutterValue::Ident(word), blank(b, e)),
                        )
                    }
                    &&& x == 91 && flutter_value(b, c) is Ok ==> (items_at(b, next(b, c0), Seq::empty()) matches Ok(
                        (items, f),
                    ) && flutter_value(b, c) == Ok::<(FlutterValue, Cur), FlutterFault>(
                        (FlutterValue::List(items), f),
                    ))
                },
            }
        }),
{
    reveal_strlit("true");
    reveal_strlit("false");
    reveal_strlit("");
    assert("true"@.len() == 4 && "false"@.len() == 5 && ""@.len() == 0);
}

/// A word with brackets behind it is a widget of that kind with the arguments in them; the arguments
/// of a text style are all kept.
pub proof fn law_call_is_a_widget(b: Seq<u8>, c: Cur)
    requires
        ({
            let c0 = blank(b, c);
            let e = run_end(b, c0, Class::Word);
            let word = between(b, c0, e);
            &&& at(b, c0) matches Some(x) && x != 34 && x != 39 && x != 91 && x != 45 && !digit(x)
            &&& word.len() > 0 && word != "true"@ && word != "false"@ && word != "Color"@
            &&& at(b, blank(b, e)) == Some(40u8)
        }),
    ensures
        flutter_value(b, c) matches Ok((v, f)) ==> {
            let c0 = blank(b, c);
            let e = run_end(b, c0, Class::Word);
            let word = between(b, c0, e);
            args_at(b, next(b, blank(b, e)), Seq::empty()) matches Ok((args, g)) && f == g && v
                == FlutterValue::Widget(
                if word == "TextStyle"@ {
                    FlutterWidget { kind: word, args, positional: None }
                } else {
                    widget_from(word, args)
                },
            )
        },
{
    reveal_strlit("");
    assert(""@.len() == 0);
}

} // verus!
