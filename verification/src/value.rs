//! The value tree and its mathematical view.

use vstd::prelude::*;
use crate::number::is_number_text;

verus! {

/// A parsed JSON value.
///
/// A number keeps its text, which [`value_wf`] holds to the number grammar.
/// An object keeps its members in a vector of key and value in which no key
/// stands twice.
#[derive(Debug)]
pub enum JsonValue {
    Null,
    Bool(bool),
    Number(String),
    String(String),
    Array(Vec<JsonValue>),
    Object(Vec<(String, JsonValue)>),
}

/// The model of a [`JsonValue`]: an array is a sequence, an object a map.
pub enum ValueView {
    Null,
    Bool(bool),
    Number(Seq<char>),
    String(Seq<char>),
    Array(Seq<ValueView>),
    Object(Map<Seq<char>, ValueView>),
}

pub open spec fn value_view(v: JsonValue) -> ValueView
    decreases v,
{
    match v {
        JsonValue::Null => ValueView::Null,
        JsonValue::Bool(b) => ValueView::Bool(b),
        JsonValue::Number(t) => ValueView::Number(t@),
        JsonValue::String(t) => ValueView::String(t@),
        JsonValue::Array(items) => ValueView::Array(items_view(items@)),
        JsonValue::Object(entries) => ValueView::Object(entries_view(entries@)),
    }
}

/// The views of the items, in order.
pub open spec fn items_view(items: Seq<JsonValue>) -> Seq<ValueView>
    decreases items,
{
    if items.len() == 0 {
        Seq::empty()
    } else {
        items_view(items.drop_last()).push(value_view(items.last()))
    }
}

/// The map that the members make when they are inserted in order, so that
/// of two members with one key the later one counts.
pub open spec fn entries_view(entries: Seq<(String, JsonValue)>) -> Map<Seq<char>, ValueView>
    decreases entries,
{
    if entries.len() == 0 {
        Map::empty()
    } else {
        entries_view(entries.drop_last()).insert(entries.last().0@, value_view(entries.last().1))
    }
}

impl View for JsonValue {
    type V = ValueView;

    open spec fn view(&self) -> ValueView {
        value_view(*self)
    }
}

/// No key stands twice.
pub open spec fn distinct_keys(entries: Seq<(String, JsonValue)>) -> bool {
    forall|i: int, j: int| 0 <= i < j < entries.len() ==> entries[i].0@ != entries[j].0@
}

/// Every number in the tree holds number text, and no object holds a key
/// twice.
pub open spec fn value_wf(v: JsonValue) -> bool
    decreases v,
{
    match v {
        JsonValue::Number(t) => is_number_text(t@),
        JsonValue::Array(items) => forall|i: int|
            0 <= i < items@.len() ==> value_wf(#[trigger] items@[i]),
        JsonValue::Object(entries) => distinct_keys(entries@) && forall|i: int|
            0 <= i < entries@.len() ==> value_wf((#[trigger] entries@[i]).1),
        _ => true,
    }
}

/// The members of a well-formed object.
pub open spec fn entries_wf(entries: Seq<(String, JsonValue)>) -> bool {
    distinct_keys(entries) && forall|i: int|
        0 <= i < entries.len() ==> value_wf((#[trigger] entries[i]).1)
}

/// Appending an item appends its view.
pub proof fn lemma_items_push(items: Seq<JsonValue>, item: JsonValue)
    ensures
        items_view(items.push(item)) == items_view(items).push(value_view(item)),
{
    assert(items.push(item).drop_last() =~= items);
}

/// Where keys are distinct, putting a new value in the place of member `i`
/// is an insertion under that member's key.
pub proof fn lemma_replace_member(
    entries: Seq<(String, JsonValue)>,
    i: int,
    member: (String, JsonValue),
)
    requires
        distinct_keys(entries),
        0 <= i < entries.len(),
        entries[i].0@ == member.0@,
    ensures
        distinct_keys(entries.update(i, member)),
        entries_view(entries.update(i, member)) == entries_view(entries).insert(
            member.0@,
            value_view(member.1),
        ),
    decreases entries.len(),
{
    let changed = entries.update(i, member);
    let last = entries.len() - 1;
    if i == last {
        assert(changed.drop_last() =~= entries.drop_last());
        assert(entries_view(changed) =~= entries_view(entries).insert(
            member.0@,
            value_view(member.1),
        ));
    } else {
        assert(distinct_keys(entries.drop_last()));
        lemma_replace_member(entries.drop_last(), i, member);
        assert(changed.drop_last() =~= entries.drop_last().update(i, member));
        assert(changed.last() == entries.last());
        assert(entries[last].0@ != entries[i].0@);
        assert(entries_view(changed) =~= entries_view(entries).insert(
            member.0@,
            value_view(member.1),
        ));
    }
}

/// Puts `value` under `key`: in the place of the member that has the key, or
/// else behind the last member.
pub fn insert_member(entries: &mut Vec<(String, JsonValue)>, key: String, value: JsonValue)
    requires
        distinct_keys(old(entries)@),
    ensures
        distinct_keys(final(entries)@),
        entries_view(final(entries)@) == entries_view(old(entries)@).insert(key@, value@),
        entries_wf(old(entries)@) && value_wf(value) ==> entries_wf(final(entries)@),
{
    let mut i: usize = 0;
    while i < entries.len()
        invariant
            i <= entries.len(),
            *entries == *old(entries),
            distinct_keys(entries@),
            forall|j: int| 0 <= j < i ==> (#[trigger] entries@[j]).0@ != key@,
        decreases entries.len() - i,
    {
        if entries[i].0 == key {
            proof {
                lemma_replace_member(entries@, i as int, (key, value));
            }
            entries.set(i, (key, value));
            return ;
        }
        i += 1;
    }
    proof {
        assert(entries@.push((key, value)).drop_last() =~= entries@);
    }
    entries.push((key, value));
}

/// The view of a sequence of items has their views, index by index.
pub proof fn lemma_items_view_index(items: Seq<JsonValue>)
    ensures
        items_view(items).len() == items.len(),
        forall|i: int| 0 <= i < items.len() ==> items_view(items)[i] == value_view(#[trigger] items[i]),
    decreases items.len(),
{
    if items.len() > 0 {
        let shorter = items.drop_last();
        lemma_items_view_index(shorter);
        assert forall|i: int| 0 <= i < items.len() implies items_view(items)[i] == value_view(
            #[trigger] items[i],
        ) by {
            if i < shorter.len() {
                assert(shorter[i] == items[i]);
            }
        }
    }
}

/// Members with the same keys and values, one by one, make the same map.
pub proof fn lemma_same_entries(a: Seq<(String, JsonValue)>, b: Seq<(String, JsonValue)>)
    requires
        a.len() == b.len(),
        forall|i: int|
            0 <= i < a.len() ==> (#[trigger] a[i]).0@ == b[i].0@ && value_view(a[i].1)
                == value_view(b[i].1),
    ensures
        entries_view(a) == entries_view(b),
    decreases a.len(),
{
    if a.len() > 0 {
        let shorter = a.drop_last();
        assert forall|i: int| 0 <= i < shorter.len() implies (#[trigger] shorter[i]).0@
            == b.drop_last()[i].0@ && value_view(shorter[i].1) == value_view(b.drop_last()[i].1) by {
            assert(shorter[i] == a[i]);
        }
        lemma_same_entries(shorter, b.drop_last());
        assert(a.last() == a[a.len() - 1]);
    }
}

impl Clone for JsonValue {
    /// A copy with the same view, well formed where the value is.
    fn clone(&self) -> (r: Self)
        ensures
            r@ == self@,
            value_wf(*self) ==> value_wf(r),
        decreases self,
    {
        match self {
            JsonValue::Null => JsonValue::Null,
            JsonValue::Bool(b) => JsonValue::Bool(*b),
            JsonValue::Number(t) => JsonValue::Number(t.clone()),
            JsonValue::String(t) => JsonValue::String(t.clone()),
            JsonValue::Array(items) => {
                let mut copy: Vec<JsonValue> = Vec::new();
                let mut i: usize = 0;
                while i < items.len()
                    invariant
                        *self == JsonValue::Array(*items),
                        i <= items.len(),
                        copy.len() == i,
                        forall|j: int|
                            0 <= j < i ==> value_view(#[trigger] copy@[j]) == value_view(items@[j])
                                && (value_wf(items@[j]) ==> value_wf(copy@[j])),
                    decreases items.len() - i,
                {
                    proof {
                        assert(self->Array_0 == *items);
                        assert(decreases_to!(*self => self->Array_0));
                    }
                    let item = items[i].clone();
                    copy.push(item);
                    i += 1;
                }
                proof {
                    lemma_items_view_index(items@);
                    lemma_items_view_index(copy@);
                    assert forall|j: int| 0 <= j < copy@.len() implies items_view(copy@)[j]
                        == items_view(items@)[j] by {
                        assert(value_view(copy@[j]) == value_view(items@[j]));
                    }
                    assert(items_view(copy@) =~= items_view(items@));
                }
                JsonValue::Array(copy)
            },
            JsonValue::Object(entries) => {
                let mut copy: Vec<(String, JsonValue)> = Vec::new();
                let mut i: usize = 0;
                while i < entries.len()
                    invariant
                        *self == JsonValue::Object(*entries),
                        i <= entries.len(),
                        copy.len() == i,
                        forall|j: int|
                            0 <= j < i ==> (#[trigger] copy@[j]).0@ == entries@[j].0@ && value_view(
                                copy@[j].1,
                            ) == value_view(entries@[j].1) && (value_wf(entries@[j].1) ==> value_wf(
                                copy@[j].1,
                            )),
                    decreases entries.len() - i,
                {
                    proof {
                        assert(self->Object_0 == *entries);
                        assert(decreases_to!(*self => self->Object_0));
                    }
                    let key = entries[i].0.clone();
                    let value = entries[i].1.clone();
                    copy.push((key, value));
                    i += 1;
                }
                proof {
                    lemma_same_entries(copy@, entries@);
                }
                JsonValue::Object(copy)
            },
        }
    }
}

} // verus!
