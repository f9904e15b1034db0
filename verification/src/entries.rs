//! Changes to the entries of a JSON object.

use crate::json;
use crate::json::{copy_json, Json};
use crate::text;
use vstd::prelude::*;
use vstd::string::*;

verus! {

/// The entries without those of a key.
pub open spec fn without(
    entries: Seq<(Seq<char>, json::JsonModel)>,
    key: Seq<char>,
) -> Seq<(Seq<char>, json::JsonModel)>
    decreases entries.len(),
{
    if entries.len() == 0 {
        seq![]
    } else if entries.last().0 == key {
        without(entries.drop_last(), key)
    } else {
        without(entries.drop_last(), key).push(entries.last())
    }
}

/// The entries with this value under a key, in place of any other.
pub open spec fn put(
    entries: Seq<(Seq<char>, json::JsonModel)>,
    key: Seq<char>,
    value: json::JsonModel,
) -> Seq<(Seq<char>, json::JsonModel)> {
    without(entries, key).push((key, value))
}

/// The entries with those of `more` put in one after the other.
pub open spec fn put_all(
    entries: Seq<(Seq<char>, json::JsonModel)>,
    more: Seq<(Seq<char>, json::JsonModel)>,
) -> Seq<(Seq<char>, json::JsonModel)>
    decreases more.len(),
{
    if more.len() == 0 {
        entries
    } else {
        put(put_all(entries, more.drop_last()), more.last().0, more.last().1)
    }
}

/// Whether no key occurs twice.
pub open spec fn distinct_keys(entries: Seq<(Seq<char>, json::JsonModel)>) -> bool {
    forall|i: int, j: int|
        0 <= i < j < entries.len() ==> (#[trigger] entries[i]).0 != (#[trigger] entries[j]).0
}

/// Removes the entries of a key.
pub fn remove_key(entries: Vec<(String, Json)>, key: &str) -> (r: Vec<(String, Json)>)
    ensures
        json::entry_models(r@) == without(json::entry_models(entries@), key@),
{
    let ghost all = entries@;
    let ghost models = json::entry_models(entries@);
    let mut out: Vec<(String, Json)> = Vec::new();
    assert(models.take(0) == Seq::<(Seq<char>, json::JsonModel)>::empty());
    assert(json::entry_models(out@) == Seq::<(Seq<char>, json::JsonModel)>::empty());
    for entry in it: entries
        invariant
            it.seq() == all,
            models == json::entry_models(all),
            json::entry_models(out@) == without(models.take(it.index()), key@),
    {
        proof {
            assert(models.take(it.index() + 1).drop_last() == models.take(it.index()));
            assert(models.take(it.index() + 1).last() == (entry.0@, entry.1@));
        }
        if !text::same_text(entry.0.as_str(), key) {
            let ghost before = out@;
            let ghost model = (entry.0@, entry.1@);
            out.push(entry);
            assert(json::entry_models(out@) == json::entry_models(before).push(model));
        }
    }
    assert(models.take(all.len() as int) == models);
    out
}

/// Puts a value under a key, in place of any other.
pub fn put_key(entries: Vec<(String, Json)>, key: &str, value: Json) -> (r: Vec<(String, Json)>)
    ensures
        json::entry_models(r@) == put(json::entry_models(entries@), key@, value@),
{
    let mut out = remove_key(entries, key);
    let ghost before = out@;
    let ghost model = value@;
    out.push((key.to_owned(), value));
    assert(json::entry_models(out@) == json::entry_models(before).push((key@, model)));
    out
}

/// Puts entries in one after the other.
pub fn put_keys(entries: Vec<(String, Json)>, more: Vec<(String, Json)>) -> (r: Vec<(String, Json)>)
    ensures
        json::entry_models(r@) == put_all(
            json::entry_models(entries@),
            json::entry_models(more@),
        ),
{
    let ghost all = more@;
    let ghost models = json::entry_models(more@);
    let ghost start = json::entry_models(entries@);
    let mut out = entries;
    assert(models.take(0) == Seq::<(Seq<char>, json::JsonModel)>::empty());
    for entry in it: more
        invariant
            it.seq() == all,
            models == json::entry_models(all),
            json::entry_models(out@) == put_all(start, models.take(it.index())),
    {
        proof {
            assert(models.take(it.index() + 1).drop_last() == models.take(it.index()));
            assert(models.take(it.index() + 1).last() == (entry.0@, entry.1@));
        }
        let (key, value) = entry;
        out = put_key(out, key.as_str(), value);
    }
    assert(models.take(all.len() as int) == models);
    out
}

/// A copy of some entries.
pub fn copy_entries(entries: &Vec<(String, Json)>) -> (r: Vec<(String, Json)>)
    ensures
        json::entry_models(r@) == json::entry_models(entries@),
{
    let mut out: Vec<(String, Json)> = Vec::new();
    let mut i: usize = 0;
    while i < entries.len()
        invariant
            i <= entries@.len(),
            out@.len() == i,
            forall|k: int|
                0 <= k < i ==> (#[trigger] out@[k]).0@ == entries@[k].0@ && out@[k].1@
                    == entries@[k].1@,
        decreases entries@.len() - i,
    {
        out.push((entries[i].0.clone(), copy_json(&entries[i].1)));
        i = i + 1;
    }
    assert(json::entry_models(out@) == json::entry_models(entries@));
    out
}

// ---------------------------------------------------------------------------
// What a change leaves
// ---------------------------------------------------------------------------

/// What a key has after one more entry.
pub proof fn lemma_lookup_push(
    entries: Seq<(Seq<char>, json::JsonModel)>,
    entry: (Seq<char>, json::JsonModel),
    key: Seq<char>,
)
    ensures
        json::lookup(entries.push(entry), key) == match json::lookup(entries, key) {
            Some(v) => Some(v),
            None => if entry.0 == key {
                Some(entry.1)
            } else {
                None
            },
        },
    decreases entries.len(),
{
    if entries.len() == 0 {
        assert(entries.push(entry).drop_first() == Seq::<(Seq<char>, json::JsonModel)>::empty());
        assert(json::lookup(Seq::<(Seq<char>, json::JsonModel)>::empty(), key) is None);
    } else {
        assert(entries.push(entry).drop_first() == entries.drop_first().push(entry));
        lemma_lookup_push(entries.drop_first(), entry, key);
    }
}

/// Removing a key leaves the others as they are.
pub proof fn lemma_lookup_without(
    entries: Seq<(Seq<char>, json::JsonModel)>,
    removed: Seq<char>,
    key: Seq<char>,
)
    ensures
        json::lookup(without(entries, removed), key) == if key == removed {
            None
        } else {
            json::lookup(entries, key)
        },
    decreases entries.len(),
{
    if entries.len() > 0 {
        let front = entries.drop_last();
        assert(front.push(entries.last()) == entries);
        lemma_lookup_push(front, entries.last(), key);
        lemma_lookup_without(front, removed, key);
        if entries.last().0 != removed {
            lemma_lookup_push(without(front, removed), entries.last(), key);
        }
    }
}

/// Putting a value under a key changes that key alone.
pub proof fn lemma_lookup_put(
    entries: Seq<(Seq<char>, json::JsonModel)>,
    changed: Seq<char>,
    value: json::JsonModel,
    key: Seq<char>,
)
    ensures
        json::lookup(put(entries, changed, value), key) == if key == changed {
            Some(value)
        } else {
            json::lookup(entries, key)
        },
{
    lemma_lookup_without(entries, changed, key);
    lemma_lookup_push(without(entries, changed), (changed, value), key);
}

/// After entries were put in, a key that they have has their value, where no
/// key occurs twice among them, and any other key has what it had.
pub proof fn lemma_lookup_put_all(
    entries: Seq<(Seq<char>, json::JsonModel)>,
    more: Seq<(Seq<char>, json::JsonModel)>,
    key: Seq<char>,
)
    requires
        distinct_keys(more),
    ensures
        json::lookup(put_all(entries, more), key) == json::either(
            json::lookup(more, key),
            json::lookup(entries, key),
        ),
    decreases more.len(),
{
    if more.len() > 0 {
        let front = more.drop_last();
        assert(front.push(more.last()) == more);
        assert(distinct_keys(front)) by {
            assert forall|i: int, j: int| 0 <= i < j < front.len() implies (#[trigger] front[i]).0
                != (#[trigger] front[j]).0 by {
                assert(front[i] == more[i] && front[j] == more[j]);
            }
        }
        lemma_lookup_put_all(entries, front, key);
        lemma_lookup_put(put_all(entries, front), more.last().0, more.last().1, key);
        lemma_lookup_push(front, more.last(), key);
        if key == more.last().0 {
            lemma_lookup_found(front, key);
            if json::lookup(front, key) is Some {
                let i = choose|i: int| 0 <= i < front.len() && (#[trigger] front[i]).0 == key;
                assert(more[i].0 != more[more.len() - 1].0);
            }
        }
    }
}

/// A value that a key has stands in an entry of that key.
pub proof fn lemma_lookup_found(entries: Seq<(Seq<char>, json::JsonModel)>, key: Seq<char>)
    ensures
        json::lookup(entries, key) matches Some(v) ==> exists|i: int|
            0 <= i < entries.len() && (#[trigger] entries[i]).0 == key && entries[i].1 == v,
        json::lookup(entries, key) is None ==> forall|i: int|
            0 <= i < entries.len() ==> (#[trigger] entries[i]).0 != key,
    decreases entries.len(),
{
    if entries.len() > 0 && entries[0].0 != key {
        let rest = entries.drop_first();
        lemma_lookup_found(rest, key);
        match json::lookup(entries, key) {
            Some(v) => {
                let i = choose|i: int|
                    0 <= i < rest.len() && (#[trigger] rest[i]).0 == key && rest[i].1 == v;
                assert(entries[i + 1] == rest[i]);
            },
            None => {
                assert forall|i: int| 0 <= i < entries.len() implies (#[trigger] entries[i]).0
                    != key by {
                    if i > 0 {
                        assert(rest[i - 1] == entries[i]);
                    }
                }
            },
        }
    }
}

/// Removing a key leaves entries of other keys, each of which was there.
pub proof fn lemma_without(entries: Seq<(Seq<char>, json::JsonModel)>, key: Seq<char>)
    ensures
        forall|i: int|
            0 <= i < without(entries, key).len() ==> (#[trigger] without(entries, key)[i]).0 != key,
        forall|i: int|
            0 <= i < without(entries, key).len() ==> entries.contains(
                #[trigger] without(entries, key)[i],
            ),
        distinct_keys(entries) ==> distinct_keys(without(entries, key)),
    decreases entries.len(),
{
    if entries.len() > 0 {
        let front = entries.drop_last();
        let kept = without(front, key);
        lemma_without(front, key);
        let out = without(entries, key);
        assert forall|i: int| 0 <= i < out.len() implies entries.contains(#[trigger] out[i]) by {
            if i < kept.len() {
                assert(front.contains(kept[i]));
                let k = choose|k: int| 0 <= k < front.len() && front[k] == kept[i];
                assert(entries[k] == kept[i]);
            } else {
                assert(entries[entries.len() - 1] == out[i]);
            }
        }
        if distinct_keys(entries) {
            assert(distinct_keys(front)) by {
                assert forall|i: int, j: int| 0 <= i < j < front.len() implies (
                #[trigger] front[i]).0 != (#[trigger] front[j]).0 by {
                    assert(front[i] == entries[i] && front[j] == entries[j]);
                }
            }
            assert forall|i: int, j: int| 0 <= i < j < out.len() implies (#[trigger] out[i]).0 != (
            #[trigger] out[j]).0 by {
                if j < kept.len() {
                    assert(kept[i].0 != kept[j].0);
                } else {
                    assert(front.contains(kept[i]));
                    let k = choose|k: int| 0 <= k < front.len() && front[k] == kept[i];
                    assert(entries[k].0 != entries[entries.len() - 1].0);
                }
            }
        }
    }
}

/// Putting a value in keeps the keys distinct.
pub proof fn lemma_put_distinct(
    entries: Seq<(Seq<char>, json::JsonModel)>,
    key: Seq<char>,
    value: json::JsonModel,
)
    requires
        distinct_keys(entries),
    ensures
        distinct_keys(put(entries, key, value)),
{
    lemma_without(entries, key);
    let kept = without(entries, key);
    let out = put(entries, key, value);
    assert forall|i: int, j: int| 0 <= i < j < out.len() implies (#[trigger] out[i]).0 != (
    #[trigger] out[j]).0 by {
        if j < kept.len() {
            assert(kept[i].0 != kept[j].0);
        }
    }
}

/// Removing a key that no entry has changes nothing.
pub proof fn lemma_without_absent(entries: Seq<(Seq<char>, json::JsonModel)>, key: Seq<char>)
    requires
        forall|i: int| 0 <= i < entries.len() ==> (#[trigger] entries[i]).0 != key,
    ensures
        without(entries, key) == entries,
    decreases entries.len(),
{
    if entries.len() > 0 {
        let front = entries.drop_last();
        assert forall|i: int| 0 <= i < front.len() implies (#[trigger] front[i]).0 != key by {
            assert(front[i] == entries[i]);
        }
        lemma_without_absent(front, key);
        assert(entries.last() == entries[entries.len() - 1]);
        assert(front.push(entries.last()) == entries);
    }
}

proof fn lemma_lacking_key_changes_nothing(
    entries: Seq<(Seq<char>, json::JsonModel)>,
    key: Seq<char>,
)
    requires
        forall|i: int| 0 <= i < entries.len() ==> (#[trigger] entries[i]).0 != key,
    ensures
        without(entries, key) == entries,
    decreases entries.len(),
{
    if entries.len() > 0 {
        let front = entries.drop_last();
        assert forall|i: int| 0 <= i < front.len() implies (#[trigger] front[i]).0 != key by {
            assert(front[i] == entries[i]);
        }
        lemma_lacking_key_changes_nothing(front, key);
        assert(entries == front.push(entries.last()));
    }
}

/// Of entries that hold a key once, removing the key leaves all the others as they
/// stand, and putting a value under the key leaves them too, with the new value
/// behind them. Where no entry has the key, there is nothing to remove.
pub proof fn law_other_entries_stay(
    before: Seq<(Seq<char>, json::JsonModel)>,
    after: Seq<(Seq<char>, json::JsonModel)>,
    key: Seq<char>,
    held: json::JsonModel,
    value: json::JsonModel,
)
    requires
        forall|i: int| 0 <= i < before.len() ==> (#[trigger] before[i]).0 != key,
        forall|i: int| 0 <= i < after.len() ==> (#[trigger] after[i]).0 != key,
    ensures
        without(before + seq![(key, held)] + after, key) == before + after,
        put(before + seq![(key, held)] + after, key, value) == (before + after).push((key, value)),
        without(before, key) == before,
        put(before, key, value) == before.push((key, value)),
    decreases after.len(),
{
    lemma_lacking_key_changes_nothing(before, key);
    let all = before + seq![(key, held)] + after;
    if after.len() == 0 {
        assert(all.drop_last() == before);
        assert(before + after == before);
    } else {
        let rest = after.drop_last();
        assert forall|i: int| 0 <= i < rest.len() implies (#[trigger] rest[i]).0 != key by {
            assert(rest[i] == after[i]);
        }
        law_other_entries_stay(before, rest, key, held, value);
        assert(all.drop_last() == before + seq![(key, held)] + rest);
        assert(all.last() == after.last());
        assert((before + rest).push(after.last()) == before + after);
    }
}

} // verus!
