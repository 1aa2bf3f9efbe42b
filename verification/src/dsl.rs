//! The `.uni` language: a source text is cut into tokens, parsed into one root element and
//! lowered into a document by mutations of the system.
use vstd::prelude::*;

use crate::dsl_syntax::{
    element_list, elements_in, elements_in_all, fault_text, literal_models, parse_root, root_of,
    CallbackModel, Element, ElementModel, Literal, PropModel, PropValue, PropValueModel,
};
use crate::dsl_token::{lex, lex_result};
use crate::float::{steady, unit, FloatOp, Unit};
use crate::ir::{empty_doc, DocModel, Document, Mutation, MutationModel};
use crate::lowering::{apply_system, create, created, sys};
use crate::lowering_law::{
    lemma_empty_sprouting, lemma_hung_sprouts, lemma_sprouting_orderly, orderly, rooted_in, sprouting,
};
use crate::node::NodeId;
use crate::text::{copy, decimal, decimal_text, join};
use crate::value::{value_models, Action, ActionModel, Binding, Value};

verus! {

/// Why a source text is no document.
#[derive(Debug, PartialEq, Eq)]
pub enum ParseError {
    /// The text from byte `start` to byte `end` is no token.
    Lex { start: usize, end: usize },
    /// The tokens are not one element.
    Parse { message: String },
    /// The document refused what the element asks for.
    Lower { message: String },
}

/// A [`ParseError`] as mathematics.
#[allow(inconsistent_fields)]
pub enum ErrorModel {
    Lex { start: usize, end: usize },
    Parse { message: Seq<char> },
    Lower { message: Seq<char> },
}

impl View for ParseError {
    type V = ErrorModel;

    open spec fn view(&self) -> ErrorModel {
        match *self {
            ParseError::Lex { start, end } => ErrorModel::Lex { start, end },
            ParseError::Parse { message } => ErrorModel::Parse { message: message@ },
            ParseError::Lower { message } => ErrorModel::Lower { message: message@ },
        }
    }
}

/// An error in words.
pub open spec fn error_text(e: ErrorModel) -> Seq<char> {
    match e {
        ErrorModel::Lex { start, end } => "lex error: unrecognized input at bytes "@ + decimal(
            start as nat,
        ) + ".."@ + decimal(end as nat),
        ErrorModel::Parse { message } => "parse error: "@ + message,
        ErrorModel::Lower { message } => "lowering error: "@ + message,
    }
}

impl ParseError {
    /// The error in words.
    pub fn to_text(&self) -> (r: String)
        ensures
            r@ == error_text(self@),
    {
        match self {
            ParseError::Lex { start, end } => {
                let a = join("lex error: unrecognized input at bytes ", decimal_text(*start as u64).as_str());
                let b = join(a.as_str(), "..");
                join(b.as_str(), decimal_text(*end as u64).as_str())
            },
            ParseError::Parse { message } => join("parse error: ", message.as_str()),
            ParseError::Lower { message } => join("lowering error: ", message.as_str()),
        }
    }
}

impl Clone for ParseError {
    fn clone(&self) -> (r: ParseError)
        ensures
            r@ == self@,
    {
        match self {
            ParseError::Lex { start, end } => ParseError::Lex { start: *start, end: *end },
            ParseError::Parse { message } => ParseError::Parse { message: copy(message.as_str()) },
            ParseError::Lower { message } => ParseError::Lower { message: copy(message.as_str()) },
        }
    }
}


/// The document with the first `n` bindings of an element on `id`.
pub open spec fn with_bindings(d: DocModel, id: NodeId, bs: Seq<(Seq<char>, Seq<char>)>, n: int) -> DocModel
    decreases n,
{
    if n <= 0 {
        d
    } else {
        sys(
            with_bindings(d, id, bs, n - 1),
            MutationModel::SetBinding { id, key: bs[n - 1].0, binding: bs[n - 1].1 },
        )
    }
}

/// What a property asks for: a literal is a property, a binding is a binding.
pub open spec fn prop_mutation(id: NodeId, p: PropModel) -> MutationModel {
    match p.value {
        PropValueModel::Literal(v) => MutationModel::SetProp { id, key: p.key, value: v },
        PropValueModel::Binding(b) => MutationModel::SetBinding { id, key: p.key, binding: b },
    }
}

/// The document with the first `n` properties of an element on `id`.
pub open spec fn with_entries(d: DocModel, id: NodeId, ps: Seq<PropModel>, n: int) -> DocModel
    decreases n,
{
    if n <= 0 {
        d
    } else {
        sys(with_entries(d, id, ps, n - 1), prop_mutation(id, ps[n - 1]))
    }
}

/// The document with the first `n` handlers of an element on `id`.
pub open spec fn with_handlers(d: DocModel, id: NodeId, cs: Seq<CallbackModel>, n: int) -> DocModel
    decreases n,
{
    if n <= 0 {
        d
    } else {
        let c = cs[n - 1];
        sys(
            with_handlers(d, id, cs, n - 1),
            MutationModel::SetCallback {
                id,
                event: c.event,
                action: ActionModel { name: c.action, args: c.args },
            },
        )
    }
}

/// The document after an element and all in it were lowered; the element has the next id.
pub open spec fn lowered(e: ElementModel, d: DocModel) -> DocModel
    decreases e, 0int,
{
    let id = NodeId(d.next_id);
    let d1 = with_bindings(created(d, e.kind), id, e.bindings, e.bindings.len() as int);
    let d2 = with_entries(d1, id, e.props, e.props.len() as int);
    let d3 = with_handlers(d2, id, e.callbacks, e.callbacks.len() as int);
    lowered_all(e.children, e.children.len() as int, id, d3)
}

/// The document after the first `n` children were lowered, each put under its parent.
pub open spec fn lowered_all(s: Seq<ElementModel>, n: int, parent: NodeId, d: DocModel) -> DocModel
    decreases s, n,
{
    if n <= 0 || n > s.len() {
        d
    } else {
        let d1 = lowered_all(s, n - 1, parent, d);
        sys(
            lowered(s[n - 1], d1),
            MutationModel::AppendChild { parent, child: NodeId(d1.next_id) },
        )
    }
}

/// The document of a root element.
pub open spec fn document_of(e: ElementModel) -> DocModel {
    sys(lowered(e, empty_doc()), MutationModel::SetRoot { id: NodeId(0) })
}

/// The document that a source text stands for, or why it stands for none.
pub open spec fn parsed(src: Seq<char>, fl: Unit) -> Result<DocModel, ErrorModel> {
    match lex_result(src) {
        Err(e) => Err(e),
        Ok(t) => match root_of(t, fl) {
            Err(f) => Err(ErrorModel::Parse { message: fault_text(f) }),
            Ok(e) => Ok(document_of(e)),
        },
    }
}

fn lower_value(l: &Literal) -> (r: Value)
    ensures
        r@ == l@,
{
    match l {
        Literal::Str(s) => Value::Text(copy(s.as_str())),
        Literal::Int(i) => Value::Int(*i),
        Literal::Float(b) => Value::Float(*b),
        Literal::Bool(b) => Value::Bool(*b),
        Literal::Color(c) => Value::Color(*c),
        Literal::Px(b) => Value::Px(*b),
    }
}

fn lower_values(v: &Vec<Literal>) -> (r: Vec<Value>)
    ensures
        value_models(r@) == literal_models(v@),
{
    let mut r: Vec<Value> = Vec::new();
    let mut i: usize = 0;
    while i < v.len()
        invariant
            i <= v@.len(),
            r@.len() == i,
            forall|j: int| 0 <= j < i ==> (#[trigger] r@[j])@ == v@[j]@,
        decreases v.len() - i,
    {
        r.push(lower_value(&v[i]));
        i += 1;
    }
    assert(value_models(r@) =~= literal_models(v@));
    r
}

fn lower_element(doc: &mut Document, e: &Element) -> (r: NodeId)
    requires
        sprouting(old(doc)@),
        old(doc)@.next_id + elements_in(e@) <= u64::MAX,
    ensures
        r == NodeId(old(doc)@.next_id),
        final(doc)@ == lowered(e@, old(doc)@),
        sprouting(final(doc)@),
        rooted_in(old(doc)@, final(doc)@),
        final(doc)@.tree.nodes.dom().contains(r),
        final(doc)@.tree.nodes[r].parent is None,
        final(doc)@.next_id == old(doc)@.next_id + elements_in(e@),
    decreases e, 0int,
{
    let id = create(doc, copy(e.kind.as_str()));
    let ghost d0 = doc@;
    let ghost m = e@;
    let mut i: usize = 0;
    while i < e.element_bindings.len()
        invariant
            m == e@,
            i <= e.element_bindings@.len(),
            sprouting(doc@),
            rooted_in(old(doc)@, d0),
            rooted_in(d0, doc@),
            doc@.next_id == d0.next_id,
            doc@ == with_bindings(d0, id, m.bindings, i as int),
        decreases e.element_bindings.len() - i,
    {
        let b = &e.element_bindings[i];
        assert(m.bindings[i as int] == (b.0@, b.1@));
        apply_system(
            doc,
            Mutation::SetBinding {
                id,
                key: copy(b.0.as_str()),
                binding: Binding { expr: copy(b.1.as_str()) },
            },
        );
        i += 1;
    }
    let ghost d1 = doc@;
    let mut j: usize = 0;
    while j < e.props.len()
        invariant
            m == e@,
            j <= e.props@.len(),
            sprouting(doc@),
            rooted_in(old(doc)@, d0),
            rooted_in(d0, doc@),
            doc@.next_id == d0.next_id,
            doc@ == with_entries(d1, id, m.props, j as int),
        decreases e.props.len() - j,
    {
        let p = &e.props[j];
        assert(m.props[j as int] == p@);
        match &p.value {
            PropValue::Literal(l) => {
                apply_system(
                    doc,
                    Mutation::SetProp { id, key: copy(p.key.as_str()), value: lower_value(l) },
                );
            },
            PropValue::Binding(b) => {
                apply_system(
                    doc,
                    Mutation::SetBinding {
                        id,
                        key: copy(p.key.as_str()),
                        binding: Binding { expr: copy(b.as_str()) },
                    },
                );
            },
        }
        j += 1;
    }
    let ghost d2 = doc@;
    let mut k: usize = 0;
    while k < e.callbacks.len()
        invariant
            m == e@,
            k <= e.callbacks@.len(),
            sprouting(doc@),
            rooted_in(old(doc)@, d0),
            rooted_in(d0, doc@),
            doc@.next_id == d0.next_id,
            doc@ == with_handlers(d2, id, m.callbacks, k as int),
        decreases e.callbacks.len() - k,
    {
        let c = &e.callbacks[k];
        assert(m.callbacks[k as int] == c@);
        apply_system(
            doc,
            Mutation::SetCallback {
                id,
                event: copy(c.event.as_str()),
                action: Action { name: copy(c.action.as_str()), args: lower_values(&c.args) },
            },
        );
        k += 1;
    }
    proof {
        assert(m.children =~= element_list(e.children@));
        assert(decreases_to!(e => e.children));
    }
    lower_children(doc, &e.children, id);
    id
}

fn lower_children(doc: &mut Document, s: &Vec<Element>, parent: NodeId)
    requires
        sprouting(old(doc)@),
        old(doc)@.tree.nodes.dom().contains(parent),
        old(doc)@.next_id + elements_in_all(element_list(s@), s@.len() as int) <= u64::MAX,
    ensures
        final(doc)@ == lowered_all(element_list(s@), s@.len() as int, parent, old(doc)@),
        sprouting(final(doc)@),
        rooted_in(old(doc)@, final(doc)@),
        final(doc)@.next_id == old(doc)@.next_id + elements_in_all(
            element_list(s@),
            s@.len() as int,
        ),
    decreases s, 1int,
{
    let ghost m = element_list(s@);
    let mut i: usize = 0;
    while i < s.len()
        invariant
            m == element_list(s@),
            i <= s@.len(),
            sprouting(old(doc)@),
            old(doc)@.tree.nodes.dom().contains(parent),
            sprouting(doc@),
            rooted_in(old(doc)@, doc@),
            old(doc)@.next_id + elements_in_all(m, s@.len() as int) <= u64::MAX,
            doc@ == lowered_all(m, i as int, parent, old(doc)@),
            doc@.next_id == old(doc)@.next_id + elements_in_all(m, i as int),
        decreases s.len() - i,
    {
        proof {
            assert(m[i as int] == s@[i as int]@);
            assert(decreases_to!(s => s@[i as int]));
            lemma_some_elements(m, i + 1, s@.len() as int);
        }
        let child = lower_element(doc, &s[i]);
        proof {
            lemma_hung_sprouts(old(doc)@, doc@, parent, child);
        }
        apply_system(doc, Mutation::AppendChild { parent, child });
        i += 1;
    }
}

proof fn lemma_some_elements(s: Seq<ElementModel>, i: int, n: int)
    requires
        0 <= i <= n <= s.len(),
    ensures
        elements_in_all(s, i) <= elements_in_all(s, n),
    decreases n,
{
    if i < n {
        lemma_some_elements(s, i, n - 1);
    }
}

/// Parses a source text into a document: a node for every element, its properties, bindings and
/// handlers on it and its children under it, and the root set. The document is coherent, can be
/// walked down and up, and was made by the system alone.
pub fn parse<F: Fn(&FloatOp) -> Option<u64>>(src: &str, fl: &F) -> (r: Result<Document, ParseError>)
    requires
        steady(*fl),
    ensures
        match r {
            Ok(d) => parsed(src@, unit(*fl)) == Ok::<DocModel, ErrorModel>(d@),
            Err(e) => parsed(src@, unit(*fl)) == Err::<DocModel, ErrorModel>(e@),
        },
        r matches Err(e) ==> !(e is Lower),
        r matches Ok(d) ==> orderly(d@),
{
    let toks = match lex(src) {
        Ok(v) => v,
        Err(e) => {
            return Err(e);
        },
    };
    let count: usize = toks.len();
    let root = match parse_root(&toks, fl) {
        Ok(e) => e,
        Err(f) => {
            return Err(ParseError::Parse { message: f.to_text() });
        },
    };
    proof {
        lemma_empty_sprouting();
    }
    let mut doc = Document::new();
    let id = lower_element(&mut doc, &root);
    apply_system(&mut doc, Mutation::SetRoot { id });
    proof {
        lemma_sprouting_orderly(doc@);
    }
    Ok(doc)
}

} // verus!
