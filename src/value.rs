use crate::number::Number;
use vstd::prelude::*;

verus! {

/// A JSON-shaped tree. An object is a list of members whose keys are
/// unique; the order of its members carries no meaning.
#[derive(Debug, PartialEq)]
pub enum Value {
    Null,
    Bool(bool),
    Number(Number),
    String(String),
    Array(Vec<Value>),
    Object(Vec<(String, Value)>),
}

/// The mathematical content of a [`Value`].
pub enum ValueView {
    Null,
    Bool(bool),
    Number(Number),
    Str(Seq<char>),
    Array(Seq<ValueView>),
    Object(Seq<(Seq<char>, ValueView)>),
}

/// The content of a tree: strings as characters, lists as sequences.
pub open spec fn value_view(v: Value) -> ValueView
    decreases v,
{
    match v {
        Value::Null => ValueView::Null,
        Value::Bool(b) => ValueView::Bool(b),
        Value::Number(n) => ValueView::Number(n),
        Value::String(s) => ValueView::Str(s@),
        Value::Array(items) => ValueView::Array(items_view(items@)),
        Value::Object(members) => ValueView::Object(members_view(members@)),
    }
}

/// The content of each item, in order.
pub open spec fn items_view(s: Seq<Value>) -> Seq<ValueView>
    decreases s,
{
    if s.len() == 0 {
        Seq::empty()
    } else {
        items_view(s.subrange(0, s.len() - 1)).push(value_view(s[s.len() - 1]))
    }
}

/// The key and the content of each member, in order.
pub open spec fn members_view(s: Seq<(String, Value)>) -> Seq<(Seq<char>, ValueView)>
    decreases s,
{
    if s.len() == 0 {
        Seq::empty()
    } else {
        members_view(s.subrange(0, s.len() - 1)).push(
            (s[s.len() - 1].0@, value_view(s[s.len() - 1].1)),
        )
    }
}

impl View for Value {
    type V = ValueView;

    open spec fn view(&self) -> ValueView {
        value_view(*self)
    }
}

/// Viewing a list of items views each item in place.
pub(crate) proof fn lemma_items_view(s: Seq<Value>)
    ensures
        items_view(s).len() == s.len(),
        forall|i: int| 0 <= i < s.len() ==> #[trigger] items_view(s)[i] == value_view(s[i]),
    decreases s.len(),
{
    if s.len() > 0 {
        lemma_items_view(s.subrange(0, s.len() - 1));
    }
}

/// Viewing a list of members views each key and each value in place.
pub(crate) proof fn lemma_members_view(s: Seq<(String, Value)>)
    ensures
        members_view(s).len() == s.len(),
        forall|i: int|
            0 <= i < s.len() ==> #[trigger] members_view(s)[i] == (s[i].0@, value_view(s[i].1)),
    decreases s.len(),
{
    if s.len() > 0 {
        lemma_members_view(s.subrange(0, s.len() - 1));
    }
}

/// The keys of an object's members are pairwise distinct.
pub open spec fn unique_keys(members: Seq<(Seq<char>, ValueView)>) -> bool {
    forall|i: int, j: int|
        0 <= i < members.len() && 0 <= j < members.len() && i != j ==> members[i].0
            != members[j].0
}

/// Every object in the tree has unique keys.
pub open spec fn well_formed(v: ValueView) -> bool
    decreases v, 0int,
{
    match v {
        ValueView::Array(items) => items_well_formed(items, items.len() as int),
        ValueView::Object(members) => unique_keys(members) && members_well_formed(
            members,
            members.len() as int,
        ),
        _ => true,
    }
}

/// The first `n` items are well formed.
pub open spec fn items_well_formed(items: Seq<ValueView>, n: int) -> bool
    decreases items, n,
{
    if n <= 0 || n > items.len() {
        true
    } else {
        items_well_formed(items, n - 1) && well_formed(items[n - 1])
    }
}

/// The values of the first `n` members are well formed.
pub open spec fn members_well_formed(members: Seq<(Seq<char>, ValueView)>, n: int) -> bool
    decreases members, n,
{
    if n <= 0 || n > members.len() {
        true
    } else {
        members_well_formed(members, n - 1) && well_formed(members[n - 1].1)
    }
}

/// The children of a well-formed array are well formed.
pub(crate) proof fn lemma_items_well_formed(items: Seq<ValueView>, n: int)
    requires
        0 <= n <= items.len(),
        items_well_formed(items, n),
    ensures
        forall|i: int| 0 <= i < n ==> #[trigger] well_formed(items[i]),
    decreases n,
{
    if n > 0 {
        lemma_items_well_formed(items, n - 1);
    }
}

/// The member values of a well-formed object are well formed.
pub(crate) proof fn lemma_members_well_formed(members: Seq<(Seq<char>, ValueView)>, n: int)
    requires
        0 <= n <= members.len(),
        members_well_formed(members, n),
    ensures
        forall|i: int| 0 <= i < n ==> #[trigger] well_formed(members[i].1),
    decreases n,
{
    if n > 0 {
        lemma_members_well_formed(members, n - 1);
    }
}

/// A copy of the tree with the same content.
pub fn copy_value(v: &Value) -> (r: Value)
    ensures
        r@ == v@,
    decreases v,
{
    match v {
        Value::Null => Value::Null,
        Value::Bool(b) => Value::Bool(*b),
        Value::Number(n) => Value::Number(*n),
        Value::String(s) => Value::String(s.clone()),
        Value::Array(items) => {
            let mut out: Vec<Value> = Vec::new();
            let mut i: usize = 0;
            proof {
                lemma_items_view(items@);
            }
            while i < items.len()
                invariant
                    *v is Array,
                    (*v)->Array_0 == *items,
                    i <= items.len(),
                    items_view(out@) == items_view(items@).subrange(0, i as int),
                    items_view(items@).len() == items@.len(),
                    forall|k: int|
                        0 <= k < items@.len() ==> #[trigger] items_view(items@)[k] == value_view(
                            items@[k],
                        ),
                decreases items.len() - i,
            {
                proof {
                    assert(decreases_to!(*v => (*v)->Array_0));
                    assert(decreases_to!(*items => items@));
                    assert(decreases_to!(items@ => items@[i as int]));
                }
                let c = copy_value(&items[i]);
                let ghost before = out@;
                out.push(c);
                proof {
                    assert(out@.subrange(0, out@.len() - 1) == before);
                    assert(items_view(items@).subrange(0, i + 1) =~= items_view(items@).subrange(
                        0,
                        i as int,
                    ).push(value_view(items@[i as int])));
                }
                i = i + 1;
            }
            proof {
                assert(items_view(items@).subrange(0, i as int) =~= items_view(items@));
            }
            Value::Array(out)
        },
        Value::Object(members) => {
            let mut out: Vec<(String, Value)> = Vec::new();
            let mut i: usize = 0;
            proof {
                lemma_members_view(members@);
            }
            while i < members.len()
                invariant
                    *v is Object,
                    (*v)->Object_0 == *members,
                    i <= members.len(),
                    members_view(out@) == members_view(members@).subrange(0, i as int),
                    members_view(members@).len() == members@.len(),
                    forall|k: int|
                        0 <= k < members@.len() ==> #[trigger] members_view(members@)[k] == (
                            members@[k].0@,
                            value_view(members@[k].1),
                        ),
                decreases members.len() - i,
            {
                proof {
                    assert(decreases_to!(*v => (*v)->Object_0));
                    assert(decreases_to!(*members => members@));
                    assert(decreases_to!(members@ => members@[i as int]));
                    assert(decreases_to!(members@[i as int] => members@[i as int].1));
                }
                let c = copy_value(&members[i].1);
                let key = members[i].0.clone();
                let ghost before = out@;
                out.push((key, c));
                proof {
                    assert(out@.subrange(0, out@.len() - 1) == before);
                    assert(members_view(members@).subrange(0, i + 1) =~= members_view(
                        members@,
                    ).subrange(0, i as int).push((members@[i as int].0@, value_view(members@[i as int].1))));
                }
                i = i + 1;
            }
            proof {
                assert(members_view(members@).subrange(0, i as int) =~= members_view(members@));
            }
            Value::Object(out)
        },
    }
}

} // verus!
