//! Values: what a property, an action argument or a state key can hold.
use vstd::prelude::*;

use crate::float::{eq32, eq64, equal, equal_single};
use crate::text::same;

verus! {

/// A property value. Floating-point numbers are carried as IEEE-754 bit patterns.
#[derive(Debug)]
pub enum Value {
    Bool(bool),
    Int(i64),
    /// A double, by its bits.
    Float(u64),
    Text(String),
    /// A colour packed as `0xRRGGBBAA`.
    Color(u32),
    /// A length in logical pixels: a single, by its bits.
    Px(u32),
    List(Vec<Value>),
}

/// A [`Value`] as mathematics.
pub enum ValueModel {
    Bool(bool),
    Int(i64),
    Float(u64),
    Text(Seq<char>),
    Color(u32),
    Px(u32),
    List(Seq<ValueModel>),
}

/// The mathematical content of a value.
pub open spec fn value_model(v: Value) -> ValueModel
    decreases v,
{
    match v {
        Value::Bool(b) => ValueModel::Bool(b),
        Value::Int(i) => ValueModel::Int(i),
        Value::Float(b) => ValueModel::Float(b),
        Value::Text(s) => ValueModel::Text(s@),
        Value::Color(c) => ValueModel::Color(c),
        Value::Px(b) => ValueModel::Px(b),
        Value::List(items) => ValueModel::List(
            Seq::new(
                items@.len(),
                |i: int|
                    if 0 <= i < items@.len() {
                        value_model(items@[i])
                    } else {
                        ValueModel::Bool(false)
                    },
            ),
        ),
    }
}

impl View for Value {
    type V = ValueModel;

    open spec fn view(&self) -> ValueModel {
        value_model(*self)
    }
}

/// The models of a sequence of values.
pub open spec fn value_models(s: Seq<Value>) -> Seq<ValueModel> {
    s.map_values(|v: Value| v@)
}

/// Equality of values as floating-point numbers compare: NaN differs from itself and the two
/// zeros are equal.
pub open spec fn value_same(a: ValueModel, b: ValueModel) -> bool
    decreases a,
{
    match (a, b) {
        (ValueModel::Bool(x), ValueModel::Bool(y)) => x == y,
        (ValueModel::Int(x), ValueModel::Int(y)) => x == y,
        (ValueModel::Float(x), ValueModel::Float(y)) => eq64(x, y),
        (ValueModel::Text(x), ValueModel::Text(y)) => x == y,
        (ValueModel::Color(x), ValueModel::Color(y)) => x == y,
        (ValueModel::Px(x), ValueModel::Px(y)) => eq32(x, y),
        (ValueModel::List(x), ValueModel::List(y)) => {
            &&& x.len() == y.len()
            &&& forall|i: int| 0 <= i < x.len() ==> value_same(#[trigger] x[i], y[i])
        },
        _ => false,
    }
}

/// Equality of two sequences of values, item by item.
pub open spec fn values_same(a: Seq<ValueModel>, b: Seq<ValueModel>) -> bool {
    &&& a.len() == b.len()
    &&& forall|i: int| 0 <= i < a.len() ==> value_same(#[trigger] a[i], b[i])
}

/// Lists are equal when their items are.
pub proof fn lemma_list_same(a: Seq<ValueModel>, b: Seq<ValueModel>)
    ensures
        value_same(ValueModel::List(a), ValueModel::List(b)) == values_same(a, b),
{
    reveal_with_fuel(value_same, 2);
}

impl Value {
    /// Equality as floating-point numbers compare.
    pub fn same_as(&self, other: &Value) -> (r: bool)
        ensures
            r == value_same(self@, other@),
        decreases self,
    {
        match (self, other) {
            (Value::Bool(x), Value::Bool(y)) => *x == *y,
            (Value::Int(x), Value::Int(y)) => *x == *y,
            (Value::Float(x), Value::Float(y)) => equal(*x, *y),
            (Value::Text(x), Value::Text(y)) => same(x.as_str(), y.as_str()),
            (Value::Color(x), Value::Color(y)) => *x == *y,
            (Value::Px(x), Value::Px(y)) => equal_single(*x, *y),
            (Value::List(x), Value::List(y)) => {
                if x.len() != y.len() {
                    return false;
                }
                let ghost a = self@->List_0;
                let ghost b = other@->List_0;
                proof {
                    lemma_list_same(a, b);
                }
                let mut i: usize = 0;
                while i < x.len()
                    invariant
                        i <= x@.len(),
                        x@.len() == y@.len(),
                        a.len() == x@.len(),
                        b.len() == y@.len(),
                        self@ == ValueModel::List(a),
                        other@ == ValueModel::List(b),
                        forall|k: int| 0 <= k < x@.len() ==> a[k] == x@[k]@,
                        forall|k: int| 0 <= k < y@.len() ==> b[k] == y@[k]@,
                        forall|k: int| 0 <= k < i ==> value_same(#[trigger] a[k], b[k]),
                        self == Value::List(*x),
                        value_same(self@, other@) == values_same(a, b),
                    decreases x.len() - i,
                {
                    assert(decreases_to!(self => x@[i as int]));
                    if !x[i].same_as(&y[i]) {
                        assert(!value_same(a[i as int], b[i as int]));
                        return false;
                    }
                    i += 1;
                }
                true
            },
            _ => false,
        }
    }
}

impl Clone for Value {
    fn clone(&self) -> (r: Self)
        ensures
            r@ == self@,
        decreases self,
    {
        match self {
            Value::Bool(b) => Value::Bool(*b),
            Value::Int(i) => Value::Int(*i),
            Value::Float(b) => Value::Float(*b),
            Value::Text(s) => Value::Text(s.clone()),
            Value::Color(c) => Value::Color(*c),
            Value::Px(b) => Value::Px(*b),
            Value::List(v) => {
                let mut out: Vec<Value> = Vec::new();
                let mut i: usize = 0;
                while i < v.len()
                    invariant
                        i <= v@.len(),
                        out@.len() == i,
                        forall|k: int| 0 <= k < i ==> (#[trigger] out@[k])@ == v@[k]@,
                        *self == Value::List(*v),
                    decreases v.len() - i,
                {
                    assert(decreases_to!(*self => self->List_0));
                    assert(decreases_to!(*v => v@[i as int]));
                    out.push(v[i].clone());
                    i += 1;
                }
                let r = Value::List(out);
                assert(r@->List_0 =~= self@->List_0);
                r
            },
        }
    }
}

impl PartialEq for Value {
    fn eq(&self, other: &Self) -> (r: bool) {
        self.same_as(other)
    }
}

impl vstd::std_specs::cmp::PartialEqSpecImpl for Value {
    open spec fn obeys_eq_spec() -> bool {
        true
    }

    open spec fn eq_spec(&self, other: &Self) -> bool {
        value_same(self@, other@)
    }
}

/// A copy of a list of values.
pub fn copy_values(v: &Vec<Value>) -> (r: Vec<Value>)
    ensures
        value_models(r@) == value_models(v@),
{
    let mut out: Vec<Value> = Vec::new();
    let mut i: usize = 0;
    while i < v.len()
        invariant
            i <= v@.len(),
            out@.len() == i,
            forall|k: int| 0 <= k < i ==> (#[trigger] out@[k])@ == v@[k]@,
        decreases v.len() - i,
    {
        out.push(v[i].clone());
        i += 1;
    }
    assert(value_models(out@) =~= value_models(v@));
    out
}

/// A named action with its arguments: what a callback runs.
#[derive(Debug)]
pub struct Action {
    pub name: String,
    pub args: Vec<Value>,
}

/// An [`Action`] as mathematics.
pub struct ActionModel {
    pub name: Seq<char>,
    pub args: Seq<ValueModel>,
}

impl View for Action {
    type V = ActionModel;

    open spec fn view(&self) -> ActionModel {
        ActionModel { name: self.name@, args: value_models(self.args@) }
    }
}

/// Equality of actions: same name, equal arguments.
pub open spec fn action_same(a: ActionModel, b: ActionModel) -> bool {
    a.name == b.name && values_same(a.args, b.args)
}

impl Action {
    /// Same name and equal arguments.
    pub fn same_as(&self, other: &Action) -> (r: bool)
        ensures
            r == action_same(self@, other@),
    {
        if !same(self.name.as_str(), other.name.as_str()) {
            return false;
        }
        if self.args.len() != other.args.len() {
            return false;
        }
        let mut i: usize = 0;
        while i < self.args.len()
            invariant
                i <= self.args@.len(),
                self.args@.len() == other.args@.len(),
                forall|k: int|
                    0 <= k < i ==> value_same(#[trigger] self@.args[k], other@.args[k]),
            decreases self.args.len() - i,
        {
            if !self.args[i].same_as(&other.args[i]) {
                assert(!value_same(self@.args[i as int], other@.args[i as int]));
                return false;
            }
            i += 1;
        }
        true
    }
}

impl Clone for Action {
    fn clone(&self) -> (r: Self)
        ensures
            r@ == self@,
    {
        Action { name: self.name.clone(), args: copy_values(&self.args) }
    }
}

impl PartialEq for Action {
    fn eq(&self, other: &Self) -> (r: bool) {
        self.same_as(other)
    }
}

impl vstd::std_specs::cmp::PartialEqSpecImpl for Action {
    open spec fn obeys_eq_spec() -> bool {
        true
    }

    open spec fn eq_spec(&self, other: &Self) -> bool {
        action_same(self@, other@)
    }
}

/// A property bound to an expression over the state.
#[derive(Debug)]
pub struct Binding {
    pub expr: String,
}

impl View for Binding {
    type V = Seq<char>;

    open spec fn view(&self) -> Seq<char> {
        self.expr@
    }
}

impl Clone for Binding {
    fn clone(&self) -> (r: Self)
        ensures
            r@ == self@,
    {
        Binding { expr: self.expr.clone() }
    }
}

impl PartialEq for Binding {
    fn eq(&self, other: &Self) -> (r: bool) {
        same(self.expr.as_str(), other.expr.as_str())
    }
}

impl vstd::std_specs::cmp::PartialEqSpecImpl for Binding {
    open spec fn obeys_eq_spec() -> bool {
        true
    }

    open spec fn eq_spec(&self, other: &Self) -> bool {
        self@ == other@
    }
}

} // verus!
