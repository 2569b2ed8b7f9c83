//! The typed values that a query string is read into.

use vstd::prelude::*;

verus! {

/// A typed value: what one field of a query string denotes, or a whole
/// query string as an object.
///
/// A `Float` holds the decimal literal of the number, not a binary
/// approximation of it. The members of an `Object` have distinct keys.
#[derive(Debug, PartialEq)]
pub enum TypedValue {
    String(String),
    Integer(i64),
    Float(String),
    Boolean(bool),
    Null,
    Array(Vec<TypedValue>),
    Object(Vec<(String, TypedValue)>),
}

/// The mathematical form of a [`TypedValue`].
pub enum ValueView {
    String(Seq<char>),
    Integer(int),
    Float(Seq<char>),
    Boolean(bool),
    Null,
    Array(Seq<ValueView>),
    Object(Seq<(Seq<char>, ValueView)>),
}

/// The views of `items`, one by one.
pub open spec fn views(items: Seq<TypedValue>) -> Seq<ValueView> {
    Seq::new(items.len(), |i: int| items[i]@)
}

/// The views of `members`, one by one.
pub open spec fn member_views(members: Seq<(String, TypedValue)>) -> Seq<(Seq<char>, ValueView)> {
    Seq::new(members.len(), |i: int| (members[i].0@, members[i].1@))
}

impl View for TypedValue {
    type V = ValueView;

    open spec fn view(&self) -> ValueView
        decreases self,
    {
        match self {
            TypedValue::String(text) => ValueView::String(text@),
            TypedValue::Integer(value) => ValueView::Integer(*value as int),
            TypedValue::Float(literal) => ValueView::Float(literal@),
            TypedValue::Boolean(value) => ValueView::Boolean(*value),
            TypedValue::Null => ValueView::Null,
            TypedValue::Array(items) => ValueView::Array(
                Seq::new(
                    items.len() as nat,
                    |i: int|
                        if 0 <= i < items.len() {
                            items[i]@
                        } else {
                            ValueView::Null
                        },
                ),
            ),
            TypedValue::Object(members) => ValueView::Object(
                Seq::new(
                    members.len() as nat,
                    |i: int|
                        (
                            members[i].0@,
                            if 0 <= i < members.len() {
                                members[i].1@
                            } else {
                                ValueView::Null
                            },
                        ),
                ),
            ),
        }
    }
}

/// Whether no key occurs twice among `members`.
pub open spec fn distinct_keys(members: Seq<(Seq<char>, ValueView)>) -> bool {
    forall|i: int, j: int|
        0 <= i < members.len() && 0 <= j < members.len() && i != j ==> (#[trigger] members[i]).0
            != (#[trigger] members[j]).0
}

/// Whether every object in `value`, at any depth, has distinct keys.
pub open spec fn well_formed(value: ValueView) -> bool
    decreases value,
{
    match value {
        ValueView::Array(items) => forall|i: int|
            0 <= i < items.len() ==> well_formed(#[trigger] items[i]),
        ValueView::Object(members) => {
            &&& distinct_keys(members)
            &&& forall|i: int| 0 <= i < members.len() ==> well_formed((#[trigger] members[i]).1)
        },
        _ => true,
    }
}

/// The view of an array is the array of the views of its items.
pub(crate) proof fn lemma_array_view(items: Vec<TypedValue>)
    ensures
        TypedValue::Array(items)@ == ValueView::Array(views(items@)),
{
    assert(TypedValue::Array(items)@->Array_0 =~= views(items@));
}

/// The view of an object is the object of the views of its members.
pub(crate) proof fn lemma_object_view(members: Vec<(String, TypedValue)>)
    ensures
        TypedValue::Object(members)@ == ValueView::Object(member_views(members@)),
{
    assert(TypedValue::Object(members)@->Object_0 =~= member_views(members@));
}

} // verus!
