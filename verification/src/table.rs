//! Maps kept as a list of keys, each once, beside a list of values.

use crate::identifier::{CoreIdentifier, CoreIdentifierView};
use crate::model::{views, Modelled};
use vstd::prelude::*;

verus! {

/// The place of a key in a list of keys.
pub open spec fn place(keys: Seq<CoreIdentifierView>, k: CoreIdentifierView) -> int {
    choose|i: int| 0 <= i < keys.len() && keys[i] == k
}

/// The map that a list of keys and a list of values stand for: each key
/// goes to the value at its place.
pub open spec fn table<V>(keys: Seq<CoreIdentifierView>, values: Seq<V>) -> Map<
    CoreIdentifierView,
    V,
> {
    Map::new(|k: CoreIdentifierView| keys.contains(k), |k: CoreIdentifierView| values[place(keys, k)])
}

/// A key that stands once in the list goes to the value at its place.
pub proof fn lemma_table_at<V>(keys: Seq<CoreIdentifierView>, values: Seq<V>, i: int)
    requires
        keys.no_duplicates(),
        0 <= i < keys.len(),
    ensures
        place(keys, keys[i]) == i,
        table(keys, values).contains_key(keys[i]),
        table(keys, values)[keys[i]] == values[i],
{
    assert(keys.contains(keys[i]));
}

/// Another value at a place gives the map with that value for the key at
/// the place.
pub proof fn lemma_table_update<V>(keys: Seq<CoreIdentifierView>, values: Seq<V>, i: int, v: V)
    requires
        keys.no_duplicates(),
        0 <= i < keys.len() <= values.len(),
    ensures
        table(keys, values.update(i, v)) == table(keys, values).insert(keys[i], v),
{
    let after = table(keys, values.update(i, v));
    let expected = table(keys, values).insert(keys[i], v);
    assert forall|k: CoreIdentifierView| after.contains_key(k) == expected.contains_key(k) by {
        assert(keys.contains(keys[i]));
    }
    assert forall|k: CoreIdentifierView| after.contains_key(k) implies after[k] == expected[k] by {
        let j = place(keys, k);
        lemma_table_at(keys, values, j);
        lemma_table_at(keys, values.update(i, v), j);
    }
    assert(after =~= expected);
}

/// A new key with its value at the end gives the map with that value for
/// the key.
pub proof fn lemma_table_push<V>(
    keys: Seq<CoreIdentifierView>,
    values: Seq<V>,
    k: CoreIdentifierView,
    v: V,
)
    requires
        keys.no_duplicates(),
        !keys.contains(k),
        keys.len() == values.len(),
    ensures
        keys.push(k).no_duplicates(),
        table(keys.push(k), values.push(v)) == table(keys, values).insert(k, v),
{
    let more = keys.push(k);
    assert forall|i: int, j: int| 0 <= i < j < more.len() implies more[i] != more[j] by {
        if j == keys.len() {
            assert(keys.contains(more[i])) by {
                assert(keys[i] == more[i]);
            }
        } else {
            assert(keys[i] == more[i] && keys[j] == more[j]);
        }
    }
    let after = table(more, values.push(v));
    let expected = table(keys, values).insert(k, v);
    assert forall|x: CoreIdentifierView| after.contains_key(x) == expected.contains_key(x) by {
        if keys.contains(x) {
            let i = place(keys, x);
            assert(more[i] == x);
        }
        if more.contains(x) {
            let i = place(more, x);
            if i < keys.len() {
                assert(keys[i] == x);
            }
        }
        assert(more[keys.len() as int] == k);
    }
    assert forall|x: CoreIdentifierView| after.contains_key(x) implies after[x] == expected[x] by {
        let j = place(more, x);
        lemma_table_at(more, values.push(v), j);
        if j < keys.len() {
            assert(keys[j] == x);
            lemma_table_at(keys, values, j);
        }
    }
    assert(after =~= expected);
}

/// The place of an identifier in a list, if it is there.
pub fn position(ids: &Vec<CoreIdentifier>, id: &CoreIdentifier) -> (r: Option<usize>)
    ensures
        match r {
            Some(i) => i < ids@.len() && views(ids@)[i as int] == id@,
            None => !views(ids@).contains(id@),
        },
{
    let mut i: usize = 0;
    while i < ids.len()
        invariant
            i <= ids@.len(),
            forall|j: int| 0 <= j < i ==> #[trigger] views(ids@)[j] != id@,
        decreases ids@.len() - i,
    {
        if ids[i].equals(id) {
            return Some(i);
        }
        i += 1;
    }
    None
}

} // verus!
