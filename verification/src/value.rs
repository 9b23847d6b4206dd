//! JSON values.

use crate::double::{same_number, Double};
use crate::text::same_text;
use vstd::prelude::*;

verus! {

/// A JSON value.
#[derive(Debug)]
pub enum JsonValue {
    String(String),
    Integer(i64),
    Float(Double),
    Object(JsonObject),
    Array(Vec<JsonValue>),
    Boolean(bool),
    Null,
}

/// The members of a JSON object: values under keys of which no two are the same.
#[derive(Debug)]
pub struct JsonObject {
    entries: Vec<(String, JsonValue)>,
}

/// A JSON value as a mathematical object.
pub enum JsonModel {
    String(Seq<char>),
    Integer(int),
    Float(u64),
    Object(Map<Seq<char>, JsonModel>),
    Array(Seq<JsonModel>),
    Boolean(bool),
    Null,
}

/// The value that `value` is.
pub open spec fn model(value: JsonValue) -> JsonModel
    decreases value,
{
    match value {
        JsonValue::String(text) => JsonModel::String(text@),
        JsonValue::Integer(number) => JsonModel::Integer(number as int),
        JsonValue::Float(number) => JsonModel::Float(number@),
        JsonValue::Object(members) => JsonModel::Object(object_model(members)),
        JsonValue::Array(items) => JsonModel::Array(models(items@)),
        JsonValue::Boolean(truth) => JsonModel::Boolean(truth),
        JsonValue::Null => JsonModel::Null,
    }
}

/// The values that `values` are, in order.
pub open spec fn models(values: Seq<JsonValue>) -> Seq<JsonModel>
    decreases values,
{
    if values.len() == 0 {
        Seq::empty()
    } else {
        models(values.drop_last()).push(model(values.last()))
    }
}

/// The members of an object, by key.
pub closed spec fn object_model(members: JsonObject) -> Map<Seq<char>, JsonModel>
    decreases members,
{
    entries_model(members.entries@)
}

spec fn entries_model(entries: Seq<(String, JsonValue)>) -> Map<Seq<char>, JsonModel>
    decreases entries,
{
    if entries.len() == 0 {
        Map::empty()
    } else {
        entries_model(entries.drop_last()).insert(entries.last().0@, model(entries.last().1))
    }
}

/// Whether two values are equal: they hold the same, and numbers count as the same by what they are
/// worth.
pub open spec fn equal(a: JsonModel, b: JsonModel) -> bool
    decreases a,
{
    match (a, b) {
        (JsonModel::Float(x), JsonModel::Float(y)) => same_number(x, y),
        (JsonModel::Object(x), JsonModel::Object(y)) => {
            &&& x.dom() == y.dom()
            &&& forall|key: Seq<char>| #[trigger] x.contains_key(key) ==> equal(x[key], y[key])
        },
        (JsonModel::Array(x), JsonModel::Array(y)) => {
            &&& x.len() == y.len()
            &&& forall|i: int| 0 <= i < x.len() ==> equal(#[trigger] x[i], y[i])
        },
        _ => a == b,
    }
}

pub open spec fn equal_items(x: Seq<JsonModel>, y: Seq<JsonModel>) -> bool {
    x.len() == y.len() && forall|i: int| 0 <= i < x.len() ==> equal(#[trigger] x[i], y[i])
}

pub open spec fn equal_members(x: Map<Seq<char>, JsonModel>, y: Map<Seq<char>, JsonModel>) -> bool {
    &&& x.dom() == y.dom()
    &&& forall|key: Seq<char>| #[trigger] x.contains_key(key) ==> equal(x[key], y[key])
}

pub proof fn lemma_equal_arrays(a: JsonModel, b: JsonModel)
    requires
        a is Array,
        b is Array,
    ensures
        equal(a, b) == equal_items(a->Array_0, b->Array_0),
{
}

pub proof fn lemma_equal_objects(a: JsonModel, b: JsonModel)
    requires
        a is Object,
        b is Object,
    ensures
        equal(a, b) == equal_members(a->Object_0, b->Object_0),
{
}

/// Of two values, each is equal to the other or none is.
pub proof fn law_equality_is_symmetric(a: JsonModel, b: JsonModel)
    ensures
        equal(a, b) == equal(b, a),
    decreases a,
{
    match (a, b) {
        (JsonModel::Object(x), JsonModel::Object(y)) => {
            lemma_equal_objects(a, b);
            lemma_equal_objects(b, a);
            if x.dom() == y.dom() {
                assert forall|key: Seq<char>| #[trigger] x.contains_key(key) implies equal(
                    x[key],
                    y[key],
                ) == equal(y[key], x[key]) by {
                    law_equality_is_symmetric(x[key], y[key]);
                }
                assert forall|key: Seq<char>| x.contains_key(key) == y.contains_key(key) by {
                    assert(x.dom().contains(key) == y.dom().contains(key));
                }
            }
        },
        (JsonModel::Array(x), JsonModel::Array(y)) => {
            lemma_equal_arrays(a, b);
            lemma_equal_arrays(b, a);
            if x.len() == y.len() {
                assert forall|i: int| 0 <= i < x.len() implies equal(#[trigger] x[i], y[i])
                    == equal(y[i], x[i]) by {
                    law_equality_is_symmetric(x[i], y[i]);
                }
            }
        },
        _ => {},
    }
}

impl View for JsonValue {
    type V = JsonModel;

    open spec fn view(&self) -> JsonModel {
        model(*self)
    }
}

impl View for JsonObject {
    type V = Map<Seq<char>, JsonModel>;

    open spec fn view(&self) -> Map<Seq<char>, JsonModel> {
        object_model(*self)
    }
}

/// No two entries have the same key.
spec fn keys_differ(entries: Seq<(String, JsonValue)>) -> bool {
    forall|i: int, j: int|
        0 <= i < j < entries.len() ==> (#[trigger] entries[i]).0@ != (#[trigger] entries[j]).0@
}

/// `key` is the key of one of the entries.
spec fn has_key(entries: Seq<(String, JsonValue)>, key: Seq<char>) -> bool {
    exists|i: int| 0 <= i < entries.len() && (#[trigger] entries[i]).0@ == key
}

proof fn lemma_entries_model(entries: Seq<(String, JsonValue)>)
    requires
        keys_differ(entries),
    ensures
        forall|key: Seq<char>| #[trigger]
            entries_model(entries).contains_key(key) <==> has_key(entries, key),
        forall|i: int|
            0 <= i < entries.len() ==> entries_model(entries)[(#[trigger] entries[i]).0@] == model(
                entries[i].1,
            ),
    decreases entries.len(),
{
    if entries.len() > 0 {
        let shorter = entries.drop_last();
        lemma_entries_model(shorter);
        assert forall|key: Seq<char>| #[trigger]
            entries_model(entries).contains_key(key) <==> has_key(entries, key) by {
            if has_key(shorter, key) {
                let i = choose|i: int| 0 <= i < shorter.len() && (#[trigger] shorter[i]).0@ == key;
                assert(entries[i].0@ == key);
            }
            if key == entries.last().0@ {
                assert(entries[entries.len() - 1].0@ == key);
            }
            if has_key(entries, key) && key != entries.last().0@ {
                let i = choose|i: int| 0 <= i < entries.len() && (#[trigger] entries[i]).0@ == key;
                assert(shorter[i].0@ == key);
            }
        }
        assert forall|i: int| 0 <= i < entries.len() implies entries_model(
            entries,
        )[(#[trigger] entries[i]).0@] == model(entries[i].1) by {
            if i < entries.len() - 1 {
                assert(shorter[i] == entries[i]);
                assert(entries[i].0@ != entries[entries.len() - 1].0@);
            }
        }
    }
}

impl JsonObject {
    #[verifier::type_invariant]
    spec fn distinct(self) -> bool {
        keys_differ(self.entries@)
    }

    /// An object without members.
    pub fn new() -> (result: Self)
        ensures
            result@ == Map::<Seq<char>, JsonModel>::empty(),
    {
        JsonObject { entries: Vec::new() }
    }

    /// The place of the entry with the given key.
    fn find(entries: &Vec<(String, JsonValue)>, key: &str) -> (result: Option<usize>)
        ensures
            match result {
                Some(i) => i < entries@.len() && entries@[i as int].0@ == key@,
                None => !has_key(entries@, key@),
            },
    {
        let mut i: usize = 0;
        while i < entries.len()
            invariant
                i <= entries@.len(),
                forall|j: int| 0 <= j < i ==> (#[trigger] entries@[j]).0@ != key@,
            decreases entries@.len() - i,
        {
            if same_text(entries[i].0.as_str(), key) {
                return Some(i);
            }
            i = i + 1;
        }
        None
    }

    /// Puts `value` under `key`, and gives back the value that was there before.
    pub fn insert(&mut self, key: String, value: JsonValue) -> (result: Option<JsonValue>)
        ensures
            final(self)@ == old(self)@.insert(key@, value@),
            match result {
                Some(previous) => old(self)@.contains_key(key@) && previous@ == old(self)@[key@],
                None => !old(self)@.contains_key(key@),
            },
    {
        proof {
            use_type_invariant(&*self);
            lemma_entries_model(self.entries@);
        }
        let mut entries: Vec<(String, JsonValue)> = Vec::new();
        std::mem::swap(&mut entries, &mut self.entries);
        let ghost before = entries@;
        let result = match Self::find(&entries, key.as_str()) {
            Some(i) => {
                let (_, previous) = entries.remove(i);
                proof {
                    assert forall|j: int, k: int| 0 <= j < k < entries@.len() implies (
                    #[trigger] entries@[j]).0@ != (#[trigger] entries@[k]).0@ by {
                        let j0 = if j < i { j } else { j + 1 };
                        let k0 = if k < i { k } else { k + 1 };
                        assert(entries@[j] == before[j0]);
                        assert(entries@[k] == before[k0]);
                    }
                    lemma_entries_model(entries@);
                    assert forall|j: int| 0 <= j < entries@.len() implies (
                    #[trigger] entries@[j]).0@ != key@ by {
                        let j0 = if j < i { j } else { j + 1 };
                        assert(entries@[j] == before[j0]);
                        assert(before[j0].0@ != before[i as int].0@);
                    }
                    assert forall|other: Seq<char>| other != key@ implies has_key(
                        before,
                        other,
                    ) == has_key(entries@, other) && (has_key(before, other)
                        ==> #[trigger] entries_model(before)[other]
                        == entries_model(entries@)[other]) by {
                        if has_key(before, other) {
                            let j = choose|j: int|
                                0 <= j < before.len() && (#[trigger] before[j]).0@ == other;
                            let j1 = if j < i { j } else { j - 1 };
                            assert(entries@[j1] == before[j]);
                        }
                        if has_key(entries@, other) {
                            let j = choose|j: int|
                                0 <= j < entries@.len() && (#[trigger] entries@[j]).0@ == other;
                            let j0 = if j < i { j } else { j + 1 };
                            assert(entries@[j] == before[j0]);
                        }
                    }
                }
                Some(previous)
            },
            None => None,
        };
        let ghost kept = entries@;
        proof {
            lemma_entries_model(kept);
            assert(!has_key(kept, key@));
        }
        entries.push((key, value));
        proof {
            assert(entries@.drop_last() =~= kept);
            assert forall|j: int, k: int| 0 <= j < k < entries@.len() implies (
            #[trigger] entries@[j]).0@ != (#[trigger] entries@[k]).0@ by {
                assert(entries@[j] == kept[j]);
                if k < kept.len() {
                    assert(entries@[k] == kept[k]);
                }
            }
            assert(entries_model(entries@) =~= entries_model(before).insert(key@, value@));
        }
        self.entries = entries;
        result
    }

    /// The value under `key`.
    pub fn get(&self, key: &str) -> (result: Option<&JsonValue>)
        ensures
            match result {
                Some(value) => self@.contains_key(key@) && value@ == self@[key@],
                None => !self@.contains_key(key@),
            },
    {
        proof {
            use_type_invariant(self);
            lemma_entries_model(self.entries@);
        }
        match Self::find(&self.entries, key) {
            Some(i) => Some(&self.entries[i].1),
            None => None,
        }
    }

    /// The number of members.
    pub fn len(&self) -> (result: usize)
        ensures
            result == self@.len(),
            self@.dom().finite(),
    {
        proof {
            use_type_invariant(self);
            lemma_entries_count(self.entries@);
        }
        self.entries.len()
    }

    /// The members, each once, as pairs of key and value.
    pub fn into_entries(self) -> (result: Vec<(String, JsonValue)>)
        ensures
            forall|i: int, j: int|
                0 <= i < j < result@.len() ==> (#[trigger] result@[i]).0@
                    != (#[trigger] result@[j]).0@,
            forall|i: int|
                0 <= i < result@.len() ==> self@.contains_key((#[trigger] result@[i]).0@)
                    && self@[result@[i].0@] == result@[i].1@,
            forall|key: Seq<char>| #[trigger]
                self@.contains_key(key) ==> exists|i: int|
                    0 <= i < result@.len() && (#[trigger] result@[i]).0@ == key,
    {
        proof {
            use_type_invariant(&self);
            lemma_entries_model(self.entries@);
        }
        self.entries
    }
}

proof fn lemma_entries_count(entries: Seq<(String, JsonValue)>)
    requires
        keys_differ(entries),
    ensures
        entries_model(entries).dom().finite(),
        entries_model(entries).len() == entries.len(),
    decreases entries.len(),
{
    if entries.len() > 0 {
        let shorter = entries.drop_last();
        lemma_entries_count(shorter);
        lemma_entries_model(shorter);
        assert(!has_key(shorter, entries.last().0@));
    }
}

pub proof fn lemma_models_index(values: Seq<JsonValue>)
    ensures
        models(values).len() == values.len(),
        forall|i: int| 0 <= i < values.len() ==> #[trigger] models(values)[i] == model(values[i]),
    decreases values.len(),
{
    if values.len() > 0 {
        lemma_models_index(values.drop_last());
    }
}

/// Whether the two values are equal.
fn same_value(a: &JsonValue, b: &JsonValue) -> (result: bool)
    ensures
        result == equal(a@, b@),
    decreases a,
{
    match (a, b) {
        (JsonValue::String(x), JsonValue::String(y)) => same_text(x.as_str(), y.as_str()),
        (JsonValue::Integer(x), JsonValue::Integer(y)) => *x == *y,
        (JsonValue::Float(x), JsonValue::Float(y)) => *x == *y,
        (JsonValue::Object(x), JsonValue::Object(y)) => same_members(x, y),
        (JsonValue::Array(x), JsonValue::Array(y)) => same_items(x, y),
        (JsonValue::Boolean(x), JsonValue::Boolean(y)) => *x == *y,
        (JsonValue::Null, JsonValue::Null) => true,
        _ => false,
    }
}

fn same_items(a: &Vec<JsonValue>, b: &Vec<JsonValue>) -> (result: bool)
    ensures
        result == equal(JsonModel::Array(models(a@)), JsonModel::Array(models(b@))),
    decreases a,
{
    let ghost x = JsonModel::Array(models(a@));
    let ghost y = JsonModel::Array(models(b@));
    proof {
        lemma_models_index(a@);
        lemma_models_index(b@);
        lemma_equal_arrays(x, y);
    }
    if a.len() != b.len() {
        return false;
    }
    let mut i: usize = 0;
    while i < a.len()
        invariant
            i <= a@.len() == b@.len(),
            x == JsonModel::Array(models(a@)),
            y == JsonModel::Array(models(b@)),
            equal(x, y) == equal_items(models(a@), models(b@)),
            models(a@).len() == a@.len(),
            models(b@).len() == b@.len(),
            forall|j: int| 0 <= j < a@.len() ==> #[trigger] models(a@)[j] == model(a@[j]),
            forall|j: int| 0 <= j < b@.len() ==> #[trigger] models(b@)[j] == model(b@[j]),
            forall|j: int| 0 <= j < i ==> equal(#[trigger] models(a@)[j], models(b@)[j]),
        decreases a@.len() - i,
    {
        assert(decreases_to!(a => a@[i as int]));
        if !same_value(&a[i], &b[i]) {
            assert(!equal(models(a@)[i as int], models(b@)[i as int]));
            return false;
        }
        i = i + 1;
    }
    true
}

fn same_members(a: &JsonObject, b: &JsonObject) -> (result: bool)
    ensures
        result == equal(JsonModel::Object(a@), JsonModel::Object(b@)),
    decreases a,
{
    proof {
        use_type_invariant(a);
        use_type_invariant(b);
        lemma_entries_model(a.entries@);
        lemma_entries_model(b.entries@);
        lemma_equal_objects(JsonModel::Object(a@), JsonModel::Object(b@));
    }
    let mut i: usize = 0;
    while i < a.entries.len()
        invariant
            i <= a.entries@.len(),
            equal(JsonModel::Object(a@), JsonModel::Object(b@)) == equal_members(a@, b@),
            forall|key: Seq<char>| #[trigger]
                entries_model(a.entries@).contains_key(key) <==> has_key(a.entries@, key),
            forall|j: int|
                0 <= j < a.entries@.len() ==> entries_model(
                    a.entries@,
                )[(#[trigger] a.entries@[j]).0@] == model(a.entries@[j].1),
            forall|j: int|
                0 <= j < i ==> b@.contains_key((#[trigger] a.entries@[j]).0@) && equal(
                    a@[a.entries@[j].0@],
                    b@[a.entries@[j].0@],
                ),
        decreases a.entries@.len() - i,
    {
        let ghost key = a.entries@[i as int].0@;
        assert(has_key(a.entries@, key));
        assert(a@.contains_key(key) && a@[key] == model(a.entries@[i as int].1));
        match b.get(a.entries[i].0.as_str()) {
            None => {
                assert(a@.dom().contains(key) && !b@.dom().contains(key));
                return false;
            },
            Some(value) => {
                assert(decreases_to!(a => a.entries@[i as int].1));
                if !same_value(&a.entries[i].1, value) {
                    assert(!equal(a@[key], b@[key]));
                    return false;
                }
            },
        }
        i = i + 1;
    }
    let mut k: usize = 0;
    while k < b.entries.len()
        invariant
            k <= b.entries@.len(),
            equal(JsonModel::Object(a@), JsonModel::Object(b@)) == equal_members(a@, b@),
            b@ == entries_model(b.entries@),
            forall|key: Seq<char>| #[trigger]
                entries_model(b.entries@).contains_key(key) <==> has_key(b.entries@, key),
            forall|j: int| 0 <= j < k ==> a@.contains_key((#[trigger] b.entries@[j]).0@),
        decreases b.entries@.len() - k,
    {
        let ghost key = b.entries@[k as int].0@;
        assert(has_key(b.entries@, key));
        assert(entries_model(b.entries@).contains_key(key));
        if a.get(b.entries[k].0.as_str()).is_none() {
            assert(b@.dom().contains(key) && !a@.dom().contains(key));
            return false;
        }
        k = k + 1;
    }
    assert(a@.dom() =~= b@.dom());
    true
}

impl PartialEq for JsonValue {
    fn eq(&self, other: &Self) -> (result: bool) {
        same_value(self, other)
    }
}

impl vstd::std_specs::cmp::PartialEqSpecImpl for JsonValue {
    open spec fn obeys_eq_spec() -> bool {
        true
    }

    open spec fn eq_spec(&self, other: &Self) -> bool {
        equal(self@, other@)
    }
}

impl PartialEq for JsonObject {
    fn eq(&self, other: &Self) -> (result: bool) {
        same_members(self, other)
    }
}

impl vstd::std_specs::cmp::PartialEqSpecImpl for JsonObject {
    open spec fn obeys_eq_spec() -> bool {
        true
    }

    open spec fn eq_spec(&self, other: &Self) -> bool {
        equal(JsonModel::Object(self@), JsonModel::Object(other@))
    }
}

} // verus!
