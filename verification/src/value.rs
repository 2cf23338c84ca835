//! The tree that parsing produces.

use vstd::prelude::*;

verus! {

/// A parsed value. An object holds its members as pairs of key and value, and
/// no key stands in it twice.
#[derive(Debug)]
pub enum JsonValue {
    Null,
    Number(u64),
    String(String),
    Array(Vec<JsonValue>),
    Object(Vec<(String, JsonValue)>),
}

/// The mathematical value of a [`JsonValue`]: an array is a sequence, an
/// object a map from keys to values.
pub enum Value {
    Null,
    Number(u64),
    String(Seq<char>),
    Array(Seq<Value>),
    Object(Map<Seq<char>, Value>),
}

/// The map that a run of pairs builds when they are inserted one after the
/// other: of two pairs with one key, the later one stays.
pub open spec fn entries_map(entries: Seq<(Seq<char>, Value)>) -> Map<Seq<char>, Value>
    decreases entries.len(),
{
    if entries.len() == 0 {
        Map::empty()
    } else {
        entries_map(entries.drop_last()).insert(entries.last().0, entries.last().1)
    }
}

/// No key occurs twice among `entries`.
pub open spec fn keys_distinct(entries: Seq<(Seq<char>, Value)>) -> bool {
    forall|i: int, j: int|
        0 <= i < j < entries.len() ==> (#[trigger] entries[i]).0 != (#[trigger] entries[j]).0
}

impl JsonValue {
    /// The mathematical value of this tree.
    pub open spec fn tree(&self) -> Value
        decreases self, 1nat,
    {
        match self {
            JsonValue::Null => Value::Null,
            JsonValue::Number(n) => Value::Number(*n),
            JsonValue::String(s) => Value::String(s@),
            JsonValue::Array(items) => Value::Array(
                Seq::new(
                    items.len() as nat,
                    |i: int|
                        if 0 <= i < items.len() {
                            items[i].tree()
                        } else {
                            Value::Null
                        },
                ),
            ),
            JsonValue::Object(_) => Value::Object(entries_map(self.entries())),
        }
    }

    /// An object's members as pairs of key and mathematical value, in the
    /// order in which the object holds them; empty for any other value.
    pub open spec fn entries(&self) -> Seq<(Seq<char>, Value)>
        decreases self, 0nat,
    {
        match self {
            JsonValue::Object(members) => Seq::new(
                members.len() as nat,
                |i: int|
                    if 0 <= i < members.len() {
                        (members[i].0@, members[i].1.tree())
                    } else {
                        (Seq::empty(), Value::Null)
                    },
            ),
            _ => Seq::empty(),
        }
    }
}

impl View for JsonValue {
    type V = Value;

    open spec fn view(&self) -> Value {
        self.tree()
    }
}

/// The mathematical values of a run of values, in the same order.
pub open spec fn values_view(items: Seq<JsonValue>) -> Seq<Value> {
    Seq::new(items.len(), |i: int| items[i]@)
}

/// The pairs of key and mathematical value of an object's members, in the
/// same order.
pub open spec fn members_view(members: Seq<(String, JsonValue)>) -> Seq<(Seq<char>, Value)> {
    Seq::new(members.len(), |i: int| (members[i].0@, members[i].1@))
}

impl JsonValue {
    /// The invariant of a tree: in every object of it, no key occurs twice.
    pub open spec fn wf(&self) -> bool
        decreases self,
    {
        match self {
            JsonValue::Array(items) => forall|i: int|
                0 <= i < items.len() ==> (#[trigger] items[i]).wf(),
            JsonValue::Object(members) => keys_distinct(members_view(members@)) && forall|i: int|
                0 <= i < members.len() ==> (#[trigger] members[i]).1.wf(),
            _ => true,
        }
    }
}

/// The value of an array is the sequence of its items' values.
pub proof fn lemma_array_view(items: Vec<JsonValue>)
    ensures
        JsonValue::Array(items)@ == Value::Array(values_view(items@)),
{
    match JsonValue::Array(items)@ {
        Value::Array(found) => {
            assert(found.len() == items@.len());
            assert forall|i: int| 0 <= i < found.len() implies found[i] == values_view(
                items@,
            )[i] by {
                assert(found[i] == items[i].tree());
            }
            assert(found =~= values_view(items@));
        },
        _ => {},
    }
}

/// The value of an object is the map that its members build.
pub proof fn lemma_object_view(members: Vec<(String, JsonValue)>)
    ensures
        JsonValue::Object(members)@ == Value::Object(entries_map(members_view(members@))),
{
    let found = JsonValue::Object(members).entries();
    assert(found.len() == members@.len());
    assert forall|i: int| 0 <= i < found.len() implies found[i] == members_view(members@)[i] by {
        assert(found[i] == (members[i].0@, members[i].1.tree()));
    }
    assert(found =~= members_view(members@));
}

/// Replacing the value of a key that is present is an insertion into the map.
pub proof fn lemma_entries_map_update(entries: Seq<(Seq<char>, Value)>, i: int, value: Value)
    requires
        keys_distinct(entries),
        0 <= i < entries.len(),
    ensures
        entries_map(entries.update(i, (entries[i].0, value))) == entries_map(entries).insert(
            entries[i].0,
            value,
        ),
        keys_distinct(entries.update(i, (entries[i].0, value))),
    decreases entries.len(),
{
    let key = entries[i].0;
    let changed = entries.update(i, (key, value));
    assert(keys_distinct(changed)) by {
        assert forall|a: int, b: int| 0 <= a < b < changed.len() implies (#[trigger] changed[a]).0
            != (#[trigger] changed[b]).0 by {
            assert(entries[a].0 != entries[b].0);
        }
    }
    if i == entries.len() - 1 {
        assert(changed.drop_last() =~= entries.drop_last());
        assert(entries_map(changed) =~= entries_map(entries).insert(key, value));
    } else {
        let shorter = entries.drop_last();
        assert(keys_distinct(shorter)) by {
            assert forall|a: int, b: int| 0 <= a < b < shorter.len() implies (
            #[trigger] shorter[a]).0 != (#[trigger] shorter[b]).0 by {
                assert(entries[a].0 != entries[b].0);
            }
        }
        lemma_entries_map_update(shorter, i, value);
        assert(changed.drop_last() =~= shorter.update(i, (key, value)));
        assert(entries[i].0 != entries[entries.len() - 1].0);
        assert(entries_map(changed) =~= entries_map(entries).insert(key, value));
    }
}

/// Appending a pair is an insertion into the map.
pub proof fn lemma_entries_map_push(entries: Seq<(Seq<char>, Value)>, key: Seq<char>, value: Value)
    ensures
        entries_map(entries.push((key, value))) == entries_map(entries).insert(key, value),
{
    assert(entries.push((key, value)).drop_last() =~= entries);
}

/// Sets `key` to `value` among an object's members: a member with that key
/// gets the new value, and where there is none the pair is appended.
pub fn put_member(members: &mut Vec<(String, JsonValue)>, key: String, value: JsonValue)
    requires
        keys_distinct(members_view(old(members)@)),
    ensures
        keys_distinct(members_view(final(members)@)),
        entries_map(members_view(final(members)@)) == entries_map(
            members_view(old(members)@),
        ).insert(key@, value@),
        value.wf() && (forall|i: int| 0 <= i < old(members)@.len() ==> (#[trigger] old(
            members,
        )@[i]).1.wf()) ==> (forall|i: int|
            0 <= i < final(members)@.len() ==> (#[trigger] final(members)@[i]).1.wf()),
{
    let ghost before = members@;
    let mut i: usize = 0;
    while i < members.len()
        invariant
            0 <= i <= members.len(),
            members@ == before,
            before == old(members)@,
            keys_distinct(members_view(before)),
            forall|j: int| 0 <= j < i ==> (#[trigger] before[j]).0@ != key@,
        decreases members.len() - i,
    {
        if members[i].0.eq(&key) {
            members.set(i, (key, value));
            proof {
                lemma_entries_map_update(members_view(before), i as int, value@);
                assert(members_view(members@) =~= members_view(before).update(
                    i as int,
                    (key@, value@),
                ));
            }
            return ;
        }
        i += 1;
    }
    members.push((key, value));
    proof {
        lemma_entries_map_push(members_view(before), key@, value@);
        assert(members_view(members@) =~= members_view(before).push((key@, value@)));
        assert forall|a: int, b: int| 0 <= a < b < members@.len() implies (#[trigger] members_view(
            members@,
        )[a]).0 != (#[trigger] members_view(members@)[b]).0 by {
            if b < before.len() {
                assert(members_view(before)[a].0 != members_view(before)[b].0);
            } else {
                assert(before[a].0@ != key@);
            }
        }
    }
}


impl Clone for JsonValue {
    /// A copy of the whole tree.
    fn clone(&self) -> (copy: Self)
        ensures
            copy@ == self@,
            self.wf() ==> copy.wf(),
        decreases self,
    {
        match self {
            JsonValue::Null => JsonValue::Null,
            JsonValue::Number(n) => JsonValue::Number(*n),
            JsonValue::String(s) => JsonValue::String(s.clone()),
            JsonValue::Array(items) => {
                let mut copies: Vec<JsonValue> = Vec::new();
                let mut i: usize = 0;
                while i < items.len()
                    invariant
                        0 <= i <= items.len(),
                        decreases_to!(self => *items),
                        copies@.len() == i,
                        forall|j: int| 0 <= j < i ==> (#[trigger] copies@[j])@ == items@[j]@,
                        forall|j: int|
                            0 <= j < i && items@[j].wf() ==> (#[trigger] copies@[j]).wf(),
                    decreases items.len() - i,
                {
                    assert(decreases_to!(*items => items[i as int]));
                    let item = items[i].clone();
                    copies.push(item);
                    i += 1;
                }
                proof {
                    lemma_array_view(*items);
                    lemma_array_view(copies);
                    assert(values_view(copies@) =~= values_view(items@));
                }
                JsonValue::Array(copies)
            },
            JsonValue::Object(members) => {
                let mut copies: Vec<(String, JsonValue)> = Vec::new();
                let mut i: usize = 0;
                while i < members.len()
                    invariant
                        0 <= i <= members.len(),
                        decreases_to!(self => *members),
                        copies@.len() == i,
                        forall|j: int|
                            0 <= j < i ==> (#[trigger] copies@[j]).0@ == members@[j].0@
                                && copies@[j].1@ == members@[j].1@,
                        forall|j: int|
                            0 <= j < i && members@[j].1.wf() ==> (#[trigger] copies@[j]).1.wf(),
                    decreases members.len() - i,
                {
                    let key = members[i].0.clone();
                    assert(decreases_to!(*members => members[i as int]));
                    let value = members[i].1.clone();
                    copies.push((key, value));
                    i += 1;
                }
                proof {
                    lemma_object_view(*members);
                    lemma_object_view(copies);
                    assert(members_view(copies@) =~= members_view(members@));
                }
                JsonValue::Object(copies)
            },
        }
    }
}

} // verus!
