//! When two values are equal.

use crate::double::{lemma_units_grow, units, Double, INFINITE, SIGN};
use crate::value::{
    equal, lemma_equal_arrays, lemma_equal_objects, lemma_models_index, models, JsonModel,
    JsonObject, JsonValue,
};
use vstd::prelude::*;
use vstd::std_specs::cmp::PartialEqSpec;

verus! {

/// What a value holds is seen in its model: the characters of a string, an integer, the bits of a
/// floating-point number, the members of an object, the items of an array in their order, a truth value.
pub proof fn law_models_show_what_values_hold(value: JsonValue)
    ensures
        match value {
            JsonValue::String(text) => value@ == JsonModel::String(text@),
            JsonValue::Integer(number) => value@ == JsonModel::Integer(number as int),
            JsonValue::Float(number) => value@ == JsonModel::Float(number.bits),
            JsonValue::Object(members) => value@ == JsonModel::Object(members@),
            JsonValue::Array(items) => value@ == JsonModel::Array(
                Seq::new(items@.len(), |i: int| items@[i]@),
            ),
            JsonValue::Boolean(truth) => value@ == JsonModel::Boolean(truth),
            JsonValue::Null => value@ == JsonModel::Null,
        },
{
    if let JsonValue::Array(items) = value {
        lemma_models_index(items@);
        assert(models(items@) =~= Seq::new(items@.len(), |i: int| items@[i]@));
    }
}

/// The sign `==` between values, between objects and between floating-point numbers tells whether what
/// they hold is equal.
pub proof fn law_equals_sign_goes_by_what_is_held(
    a: JsonValue,
    b: JsonValue,
    x: JsonObject,
    y: JsonObject,
    m: Double,
    n: Double,
)
    ensures
        <JsonValue as PartialEqSpec>::obeys_eq_spec(),
        <JsonObject as PartialEqSpec>::obeys_eq_spec(),
        <Double as PartialEqSpec>::obeys_eq_spec(),
        a.eq_spec(&b) == equal(a@, b@),
        x.eq_spec(&y) == equal(JsonModel::Object(x@), JsonModel::Object(y@)),
        m.eq_spec(&n) == equal(JsonModel::Float(m.bits), JsonModel::Float(n.bits)),
{
}

/// A string, an integer, a truth value and null are each equal to themselves and to nothing else.
pub proof fn law_plain_values_equal_only_themselves(a: JsonModel, b: JsonModel)
    requires
        a is String || a is Integer || a is Boolean || a is Null,
    ensures
        equal(a, b) <==> a == b,
        equal(b, a) <==> a == b,
{
}

/// What a number is worth, in the smallest one above nought: its magnitude, with its sign.
pub open spec fn worth(bits: u64) -> int {
    if bits >= SIGN {
        -(units((bits - SIGN) as nat) as int)
    } else {
        units(bits as nat) as int
    }
}

proof fn lemma_units_tell_apart(a: nat, b: nat)
    ensures
        units(a) == units(b) <==> a == b,
        units(a) == 0 <==> a == 0,
{
    if a < b {
        lemma_units_grow(a, b);
    } else if b < a {
        lemma_units_grow(b, a);
    }
    if a > 0 {
        lemma_units_grow(0, a);
    }
}

/// Floating-point numbers are equal to those that are worth the same, and what is no number is equal to
/// nothing. With its sign left out, what is no number has bits beyond those of infinity.
pub proof fn law_numbers_are_equal_by_worth(a: u64, b: JsonModel)
    ensures
        equal(JsonModel::Float(a), b) <==> {
            &&& b is Float
            &&& (if a >= SIGN { a - SIGN } else { a as int }) <= INFINITE
            &&& (if b->Float_0 >= SIGN { b->Float_0 - SIGN } else { b->Float_0 as int }) <= INFINITE
            &&& worth(a) == worth(b->Float_0)
        },
{
    if b is Float {
        let y = b->Float_0;
        let m = (a % SIGN) as nat;
        let n = (y % SIGN) as nat;
        assert(a >= SIGN ==> m == a - SIGN);
        assert(a < SIGN ==> m == a);
        assert(y >= SIGN ==> n == y - SIGN);
        assert(y < SIGN ==> n == y);
        lemma_units_tell_apart(m, n);
        lemma_units_tell_apart(n, m);
    }
}

/// Arrays are equal if they have as many items, and each is equal to the one at the same place.
pub proof fn law_arrays_are_equal_by_items(x: Seq<JsonModel>, b: JsonModel)
    ensures
        equal(JsonModel::Array(x), b) <==> {
            &&& b is Array
            &&& b->Array_0.len() == x.len()
            &&& forall|i: int| 0 <= i < x.len() ==> equal(#[trigger] x[i], b->Array_0[i])
        },
{
    if b is Array {
        lemma_equal_arrays(JsonModel::Array(x), b);
    }
}

/// Objects are equal if they have the same keys, and equal values under them.
pub proof fn law_objects_are_equal_by_members(x: Map<Seq<char>, JsonModel>, b: JsonModel)
    ensures
        equal(JsonModel::Object(x), b) <==> {
            &&& b is Object
            &&& forall|key: Seq<char>| #[trigger]
                x.contains_key(key) <==> b->Object_0.contains_key(key)
            &&& forall|key: Seq<char>| #[trigger]
                x.contains_key(key) ==> equal(x[key], b->Object_0[key])
        },
{
    if b is Object {
        let y = b->Object_0;
        lemma_equal_objects(JsonModel::Object(x), b);
        if forall|key: Seq<char>| #[trigger] x.contains_key(key) <==> y.contains_key(key) {
            assert forall|key: Seq<char>| x.dom().contains(key) == y.dom().contains(key) by {
                assert(x.contains_key(key) <==> y.contains_key(key));
            }
            assert(x.dom() =~= y.dom());
        } else if x.dom() == y.dom() {
            let key = choose|key: Seq<char>| !(#[trigger] x.contains_key(key) <==> y.contains_key(key));
            assert(x.dom().contains(key) == y.dom().contains(key));
        }
    }
}

/// No floating-point number stands in the value.
pub open spec fn without_floats(value: JsonModel) -> bool
    decreases value,
{
    match value {
        JsonModel::Float(_) => false,
        JsonModel::Object(members) => forall|key: Seq<char>| #[trigger]
            members.contains_key(key) ==> without_floats(members[key]),
        JsonModel::Array(items) => forall|i: int|
            0 <= i < items.len() ==> without_floats(#[trigger] items[i]),
        _ => true,
    }
}

/// A value without floating-point numbers is equal to itself and to no other value.
pub proof fn law_equality_tells_values_apart(a: JsonModel, b: JsonModel)
    requires
        without_floats(a),
    ensures
        equal(a, b) <==> a == b,
    decreases a,
{
    match a {
        JsonModel::Object(x) => {
            law_objects_are_equal_by_members(x, b);
            if b is Object {
                let y = b->Object_0;
                assert forall|key: Seq<char>| #[trigger] x.contains_key(key) implies (equal(
                    x[key],
                    y[key],
                ) <==> x[key] == y[key]) by {
                    assert(without_floats(x[key]));
                    law_equality_tells_values_apart(x[key], y[key]);
                }
                if equal(a, b) {
                    assert(x =~= y);
                }
            }
        },
        JsonModel::Array(x) => {
            law_arrays_are_equal_by_items(x, b);
            if b is Array {
                let y = b->Array_0;
                assert forall|i: int| 0 <= i < x.len() implies (equal(#[trigger] x[i], y[i])
                    <==> x[i] == y[i]) by {
                    assert(without_floats(x[i]));
                    law_equality_tells_values_apart(x[i], y[i]);
                }
                if equal(a, b) {
                    assert(x =~= y);
                }
            }
        },
        _ => {
            law_plain_values_equal_only_themselves(a, b);
        },
    }
}

} // verus!
