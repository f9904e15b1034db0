//! Documents that hold the same, whatever the order of the entries of objects and
//! the digits of floats.

use crate::entries;
use crate::json;
use crate::json::JsonNumber;
use vstd::prelude::*;

verus! {

/// Whether two documents hold the same: they are equal but for the order of the
/// entries of objects, and where the first has a float, the second may have any
/// number.
pub open spec fn same(a: json::JsonModel, b: json::JsonModel) -> bool
    decreases a,
{
    match (a, b) {
        (json::JsonModel::Null, json::JsonModel::Null) => true,
        (json::JsonModel::Bool(x), json::JsonModel::Bool(y)) => x == y,
        (json::JsonModel::Number(x), json::JsonModel::Number(y)) => x == y || x is Float,
        (json::JsonModel::Text(x), json::JsonModel::Text(y)) => x == y,
        (json::JsonModel::Array(x), json::JsonModel::Array(y)) => {
            &&& x.len() == y.len()
            &&& forall|i: int| 0 <= i < x.len() ==> same(#[trigger] x[i], y[i])
        },
        (json::JsonModel::Object(x), json::JsonModel::Object(y)) => {
            &&& entries::distinct_keys(y)
            &&& forall|i: int|
                0 <= i < x.len() ==> match json::lookup(y, (#[trigger] x[i]).0) {
                    Some(v) => same(x[i].1, v),
                    None => false,
                }
            &&& forall|j: int|
                0 <= j < y.len() ==> json::lookup(x, (#[trigger] y[j]).0) is Some
        },
        _ => false,
    }
}

/// Whether every integer of a document is under its one form, and no key of an
/// object repeats.
pub open spec fn is_regular(m: json::JsonModel) -> bool
    decreases m,
{
    match m {
        json::JsonModel::Number(JsonNumber::Negative(n)) => n < 0,
        json::JsonModel::Array(items) => forall|i: int|
            0 <= i < items.len() ==> is_regular(#[trigger] items[i]),
        json::JsonModel::Object(e) => {
            &&& entries::distinct_keys(e)
            &&& forall|i: int| 0 <= i < e.len() ==> is_regular((#[trigger] e[i]).1)
        },
        _ => true,
    }
}

/// Whether a document holds no floats.
pub open spec fn is_whole(m: json::JsonModel) -> bool
    decreases m,
{
    match m {
        json::JsonModel::Number(n) => !(n is Float),
        json::JsonModel::Array(items) => forall|i: int|
            0 <= i < items.len() ==> is_whole(#[trigger] items[i]),
        json::JsonModel::Object(e) => forall|i: int|
            0 <= i < e.len() ==> is_whole((#[trigger] e[i]).1),
        _ => true,
    }
}

/// Whether arrays and objects are nested no deeper than `depth`.
pub open spec fn is_within(m: json::JsonModel, depth: nat) -> bool
    decreases m,
{
    match m {
        json::JsonModel::Array(items) => depth > 0 && forall|i: int|
            0 <= i < items.len() ==> is_within(#[trigger] items[i], (depth - 1) as nat),
        json::JsonModel::Object(e) => depth > 0 && forall|i: int|
            0 <= i < e.len() ==> is_within((#[trigger] e[i]).1, (depth - 1) as nat),
        _ => true,
    }
}

/// Whether two lookups found the same, or both nothing.
pub open spec fn same_found(a: Option<json::JsonModel>, b: Option<json::JsonModel>) -> bool {
    match (a, b) {
        (Some(x), Some(y)) => same(x, y),
        (None, None) => true,
        _ => false,
    }
}

/// Whether two lists of entries hold the same under every key.
pub open spec fn agree(
    x: Seq<(Seq<char>, json::JsonModel)>,
    y: Seq<(Seq<char>, json::JsonModel)>,
) -> bool {
    forall|key: Seq<char>|
        #![trigger json::lookup(x, key)]
        #![trigger json::lookup(y, key)]
        same_found(json::lookup(x, key), json::lookup(y, key))
}

/// Where no key repeats, an entry is what its key finds.
pub proof fn lemma_lookup_own(e: Seq<(Seq<char>, json::JsonModel)>, i: int)
    requires
        entries::distinct_keys(e),
        0 <= i < e.len(),
    ensures
        json::lookup(e, e[i].0) == Some(e[i].1),
{
    entries::lemma_lookup_found(e, e[i].0);
    let v = json::lookup(e, e[i].0)->0;
    let k = choose|k: int| 0 <= k < e.len() && (#[trigger] e[k]).0 == e[i].0 && e[k].1 == v;
    if k < i {
        assert(e[k].0 != e[i].0);
    } else if i < k {
        assert(e[i].0 != e[k].0);
    }
}

/// Objects that hold the same hold the same under every key.
pub proof fn lemma_same_agree(
    x: Seq<(Seq<char>, json::JsonModel)>,
    y: Seq<(Seq<char>, json::JsonModel)>,
)
    requires
        same(json::JsonModel::Object(x), json::JsonModel::Object(y)),
    ensures
        agree(x, y),
{
    assert forall|key: Seq<char>|
        #![trigger json::lookup(x, key)]
        #![trigger json::lookup(y, key)]
        same_found(json::lookup(x, key), json::lookup(y, key)) by {
        entries::lemma_lookup_found(x, key);
        entries::lemma_lookup_found(y, key);
        match json::lookup(x, key) {
            Some(v) => {
                let i = choose|i: int| 0 <= i < x.len() && (#[trigger] x[i]).0 == key && x[i].1 == v;
                assert(json::lookup(y, x[i].0) is Some);
            },
            None => {
                if let Some(v) = json::lookup(y, key) {
                    let j = choose|j: int|
                        0 <= j < y.len() && (#[trigger] y[j]).0 == key && y[j].1 == v;
                    assert(json::lookup(x, y[j].0) is Some);
                }
            },
        }
    }
}

/// Objects that hold the same under every key hold the same.
pub proof fn lemma_agree_same(
    x: Seq<(Seq<char>, json::JsonModel)>,
    y: Seq<(Seq<char>, json::JsonModel)>,
)
    requires
        agree(x, y),
        entries::distinct_keys(x),
        entries::distinct_keys(y),
    ensures
        same(json::JsonModel::Object(x), json::JsonModel::Object(y)),
{
    assert forall|i: int| 0 <= i < x.len() implies match json::lookup(y, (#[trigger] x[i]).0) {
        Some(v) => same(x[i].1, v),
        None => false,
    } by {
        lemma_lookup_own(x, i);
        assert(same_found(json::lookup(x, x[i].0), json::lookup(y, x[i].0)));
    }
    assert forall|j: int| 0 <= j < y.len() implies json::lookup(x, (#[trigger] y[j]).0) is Some by {
        lemma_lookup_own(y, j);
        assert(same_found(json::lookup(x, y[j].0), json::lookup(y, y[j].0)));
    }
}

/// Putting in the same keeps two lists of entries in agreement.
pub proof fn lemma_agree_put(
    x: Seq<(Seq<char>, json::JsonModel)>,
    y: Seq<(Seq<char>, json::JsonModel)>,
    changed: Seq<char>,
    a: json::JsonModel,
    b: json::JsonModel,
)
    requires
        agree(x, y),
        same(a, b),
    ensures
        agree(entries::put(x, changed, a), entries::put(y, changed, b)),
{
    let p = entries::put(x, changed, a);
    let q = entries::put(y, changed, b);
    assert forall|key: Seq<char>|
        #![trigger json::lookup(p, key)]
        #![trigger json::lookup(q, key)]
        same_found(json::lookup(p, key), json::lookup(q, key)) by {
        entries::lemma_lookup_put(x, changed, a, key);
        entries::lemma_lookup_put(y, changed, b, key);
        assert(same_found(json::lookup(x, key), json::lookup(y, key)));
    }
}

/// Removing a key keeps two lists of entries in agreement.
pub proof fn lemma_agree_without(
    x: Seq<(Seq<char>, json::JsonModel)>,
    y: Seq<(Seq<char>, json::JsonModel)>,
    removed: Seq<char>,
)
    requires
        agree(x, y),
    ensures
        agree(entries::without(x, removed), entries::without(y, removed)),
{
    let p = entries::without(x, removed);
    let q = entries::without(y, removed);
    assert forall|key: Seq<char>|
        #![trigger json::lookup(p, key)]
        #![trigger json::lookup(q, key)]
        same_found(json::lookup(p, key), json::lookup(q, key)) by {
        entries::lemma_lookup_without(x, removed, key);
        entries::lemma_lookup_without(y, removed, key);
        assert(same_found(json::lookup(x, key), json::lookup(y, key)));
    }
}

/// What a regular object holds is regular.
pub proof fn lemma_regular_lookup(e: Seq<(Seq<char>, json::JsonModel)>, key: Seq<char>)
    requires
        is_regular(json::JsonModel::Object(e)),
    ensures
        json::lookup(e, key) matches Some(v) ==> is_regular(v),
{
    entries::lemma_lookup_found(e, key);
    if let Some(v) = json::lookup(e, key) {
        let i = choose|i: int| 0 <= i < e.len() && (#[trigger] e[i]).0 == key && e[i].1 == v;
        let object = json::JsonModel::Object(e);
        assert(object->Object_0[i] == e[i]);
    }
}

/// A regular object stays regular where a key is removed.
pub proof fn lemma_regular_without(e: Seq<(Seq<char>, json::JsonModel)>, key: Seq<char>)
    requires
        is_regular(json::JsonModel::Object(e)),
    ensures
        is_regular(json::JsonModel::Object(entries::without(e, key))),
{
    entries::lemma_without(e, key);
    let kept = entries::without(e, key);
    let object = json::JsonModel::Object(e);
    assert forall|i: int| 0 <= i < kept.len() implies is_regular((#[trigger] kept[i]).1) by {
        assert(e.contains(kept[i]));
        let k = choose|k: int| 0 <= k < e.len() && e[k] == kept[i];
        assert(object->Object_0[k] == e[k]);
    }
}

/// A regular object stays regular where a regular value is put in.
pub proof fn lemma_regular_put(
    e: Seq<(Seq<char>, json::JsonModel)>,
    key: Seq<char>,
    value: json::JsonModel,
)
    requires
        is_regular(json::JsonModel::Object(e)),
        is_regular(value),
    ensures
        is_regular(json::JsonModel::Object(entries::put(e, key, value))),
{
    entries::lemma_put_distinct(e, key, value);
    lemma_regular_without(e, key);
    let kept = entries::without(e, key);
    let out = entries::put(e, key, value);
    let object = json::JsonModel::Object(kept);
    assert forall|i: int| 0 <= i < out.len() implies is_regular((#[trigger] out[i]).1) by {
        if i < kept.len() {
            assert(object->Object_0[i] == kept[i]);
            assert(out[i] == kept[i]);
        }
    }
}

/// What holds the same as a document without floats within a depth is such a
/// document.
pub proof fn lemma_same_whole(a: json::JsonModel, b: json::JsonModel, depth: nat)
    requires
        same(a, b),
        is_whole(a),
        is_within(a, depth),
    ensures
        is_whole(b),
        is_within(b, depth),
    decreases a,
{
    match (a, b) {
        (json::JsonModel::Array(x), json::JsonModel::Array(y)) => {
            assert forall|i: int| 0 <= i < y.len() implies is_whole(#[trigger] y[i]) && is_within(
                y[i],
                (depth - 1) as nat,
            ) by {
                assert(same(x[i], y[i]));
                assert(decreases_to!(a => a->Array_0));
                assert(decreases_to!(x => x[i]));
                lemma_same_whole(x[i], y[i], (depth - 1) as nat);
            }
        },
        (json::JsonModel::Object(x), json::JsonModel::Object(y)) => {
            assert forall|j: int| 0 <= j < y.len() implies is_whole((#[trigger] y[j]).1)
                && is_within(y[j].1, (depth - 1) as nat) by {
                entries::lemma_lookup_found(x, y[j].0);
                let v = json::lookup(x, y[j].0)->0;
                let i = choose|i: int|
                    0 <= i < x.len() && (#[trigger] x[i]).0 == y[j].0 && x[i].1 == v;
                lemma_lookup_own(y, j);
                assert(json::lookup(y, x[i].0) == Some(y[j].1));
                assert(decreases_to!(a => a->Object_0));
                assert(decreases_to!(x => x[i]));
                assert(decreases_to!(x[i] => x[i].1));
                lemma_same_whole(x[i].1, y[j].1, (depth - 1) as nat);
            }
        },
        _ => {},
    }
}

/// What holds the same as a document that holds the same as a third holds the
/// same as the third.
pub proof fn lemma_same_passes(a: json::JsonModel, b: json::JsonModel, c: json::JsonModel)
    requires
        same(a, b),
        same(b, c),
    ensures
        same(a, c),
    decreases a,
{
    match (a, b, c) {
        (
            json::JsonModel::Array(x),
            json::JsonModel::Array(y),
            json::JsonModel::Array(z),
        ) => {
            assert forall|i: int| 0 <= i < x.len() implies same(#[trigger] x[i], z[i]) by {
                assert(same(x[i], y[i]));
                assert(same(y[i], z[i]));
                assert(decreases_to!(a => a->Array_0));
                assert(decreases_to!(x => x[i]));
                lemma_same_passes(x[i], y[i], z[i]);
            }
        },
        (
            json::JsonModel::Object(x),
            json::JsonModel::Object(y),
            json::JsonModel::Object(z),
        ) => {
            lemma_same_agree(x, y);
            lemma_same_agree(y, z);
            assert forall|i: int| 0 <= i < x.len() implies match json::lookup(
                z,
                (#[trigger] x[i]).0,
            ) {
                Some(v) => same(x[i].1, v),
                None => false,
            } by {
                let u = json::lookup(y, x[i].0)->0;
                assert(json::lookup(y, x[i].0) is Some && same(x[i].1, u));
                assert(same_found(json::lookup(y, x[i].0), json::lookup(z, x[i].0)));
                assert(decreases_to!(a => a->Object_0));
                assert(decreases_to!(x => x[i]));
                assert(decreases_to!(x[i] => x[i].1));
                lemma_same_passes(x[i].1, u, json::lookup(z, x[i].0)->0);
            }
            assert forall|j: int| 0 <= j < z.len() implies json::lookup(
                x,
                (#[trigger] z[j]).0,
            ) is Some by {
                assert(json::lookup(y, z[j].0) is Some);
                assert(same_found(json::lookup(x, z[j].0), json::lookup(y, z[j].0)));
            }
        },
        _ => {},
    }
}

} // verus!
