use crate::text::str_eq;
use vstd::prelude::*;

verus! {

/// Entry `i` of a list of named entries has the name `key`.
pub open spec fn key_at<T>(entries: Seq<(Seq<char>, T)>, key: Seq<char>, i: int) -> bool {
    0 <= i < entries.len() && entries[i].0 == key
}

/// Some entry has the name `key`.
pub open spec fn has_key<T>(entries: Seq<(Seq<char>, T)>, key: Seq<char>) -> bool {
    exists|i: int| key_at(entries, key, i)
}

/// No two entries share a name.
pub open spec fn distinct_keys<T>(entries: Seq<(Seq<char>, T)>) -> bool {
    forall|i: int, j: int|
        0 <= i < j < entries.len() ==> (#[trigger] entries[i]).0 != (#[trigger] entries[j]).0
}

/// The map from each name to an entry of that name.
pub open spec fn to_map<T>(entries: Seq<(Seq<char>, T)>) -> Map<Seq<char>, T> {
    Map::new(
        |key: Seq<char>| has_key(entries, key),
        |key: Seq<char>| entries[choose|i: int| key_at(entries, key, i)].1,
    )
}

/// Where names are distinct, the map sends each entry's name to that entry.
pub proof fn lemma_to_map_at<T>(entries: Seq<(Seq<char>, T)>, i: int)
    requires
        distinct_keys(entries),
        0 <= i < entries.len(),
    ensures
        to_map(entries).contains_key(entries[i].0),
        to_map(entries)[entries[i].0] == entries[i].1,
{
    let key = entries[i].0;
    assert(key_at(entries, key, i));
    let c = choose|c: int| key_at(entries, key, c);
    if c < i {
        assert(entries[c].0 != entries[i].0);
    } else if i < c {
        assert(entries[i].0 != entries[c].0);
    }
}

/// Adding an entry under a new name adds it to the map.
pub proof fn lemma_to_map_push<T>(entries: Seq<(Seq<char>, T)>, key: Seq<char>, value: T)
    requires
        distinct_keys(entries),
        !has_key(entries, key),
    ensures
        distinct_keys(entries.push((key, value))),
        to_map(entries.push((key, value))) == to_map(entries).insert(key, value),
{
    let more = entries.push((key, value));
    assert forall|i: int, j: int| 0 <= i < j < more.len() implies (#[trigger] more[i]).0 != (
    #[trigger] more[j]).0 by {
        if j == entries.len() {
            assert(!key_at(entries, key, i));
        } else {
            assert(entries[i].0 != entries[j].0);
        }
    }
    assert forall|k: Seq<char>| has_key(more, k) <==> (k == key || has_key(entries, k)) by {
        if has_key(more, k) {
            let i = choose|i: int| key_at(more, k, i);
            if i < entries.len() {
                assert(key_at(entries, k, i));
            }
        }
        if has_key(entries, k) {
            let i = choose|i: int| key_at(entries, k, i);
            assert(key_at(more, k, i));
        }
        if k == key {
            assert(key_at(more, k, entries.len() as int));
        }
    }
    assert forall|k: Seq<char>| has_key(more, k) implies to_map(more)[k] == to_map(
        entries,
    ).insert(key, value)[k] by {
        let i = choose|i: int| key_at(more, k, i);
        lemma_to_map_at(more, i);
        if i < entries.len() {
            assert(key_at(entries, k, i));
            lemma_to_map_at(entries, i);
        }
    }
    assert(to_map(more) =~= to_map(entries).insert(key, value));
}

/// Replacing the value of an entry replaces it in the map.
pub proof fn lemma_to_map_update<T>(entries: Seq<(Seq<char>, T)>, i: int, value: T)
    requires
        distinct_keys(entries),
        0 <= i < entries.len(),
    ensures
        distinct_keys(entries.update(i, (entries[i].0, value))),
        to_map(entries.update(i, (entries[i].0, value))) == to_map(entries).insert(
            entries[i].0,
            value,
        ),
{
    let key = entries[i].0;
    let other = entries.update(i, (key, value));
    assert forall|a: int, b: int| 0 <= a < b < other.len() implies (#[trigger] other[a]).0 != (
    #[trigger] other[b]).0 by {
        assert(entries[a].0 != entries[b].0);
    }
    assert forall|k: Seq<char>| has_key(other, k) <==> has_key(entries, k) by {
        if has_key(other, k) {
            let c = choose|c: int| key_at(other, k, c);
            assert(key_at(entries, k, c));
        }
        if has_key(entries, k) {
            let c = choose|c: int| key_at(entries, k, c);
            assert(key_at(other, k, c));
        }
    }
    assert(key_at(entries, key, i));
    assert forall|k: Seq<char>| has_key(other, k) implies to_map(other)[k] == to_map(
        entries,
    ).insert(key, value)[k] by {
        let c = choose|c: int| key_at(other, k, c);
        lemma_to_map_at(other, c);
        if c != i {
            assert(key_at(entries, k, c));
            lemma_to_map_at(entries, c);
            if c < i {
                assert(entries[c].0 != entries[i].0);
            } else {
                assert(entries[i].0 != entries[c].0);
            }
        }
    }
    assert(to_map(other) =~= to_map(entries).insert(key, value));
}

/// Appending entries under new names adds them to the map.
pub proof fn lemma_to_map_concat<T>(a: Seq<(Seq<char>, T)>, b: Seq<(Seq<char>, T)>)
    requires
        distinct_keys(a + b),
    ensures
        to_map(a + b) == to_map(a).union_prefer_right(to_map(b)),
{
    let all = a + b;
    assert forall|k: Seq<char>| has_key(all, k) <==> (has_key(a, k) || has_key(b, k)) by {
        if has_key(all, k) {
            let i = choose|i: int| key_at(all, k, i);
            if i < a.len() {
                assert(key_at(a, k, i));
            } else {
                assert(key_at(b, k, i - a.len()));
            }
        }
        if has_key(a, k) {
            let i = choose|i: int| key_at(a, k, i);
            assert(key_at(all, k, i));
        }
        if has_key(b, k) {
            let i = choose|i: int| key_at(b, k, i);
            assert(key_at(all, k, i + a.len()));
        }
    }
    assert(distinct_keys(a)) by {
        assert forall|i: int, j: int| 0 <= i < j < a.len() implies (#[trigger] a[i]).0 != (
        #[trigger] a[j]).0 by {
            assert(all[i].0 != all[j].0);
        }
    }
    assert(distinct_keys(b)) by {
        assert forall|i: int, j: int| 0 <= i < j < b.len() implies (#[trigger] b[i]).0 != (
        #[trigger] b[j]).0 by {
            assert(all[i + a.len()].0 != all[j + a.len()].0);
        }
    }
    let joined = to_map(a).union_prefer_right(to_map(b));
    assert forall|k: Seq<char>| has_key(all, k) implies to_map(all)[k] == joined[k] by {
        let i = choose|i: int| key_at(all, k, i);
        lemma_to_map_at(all, i);
        if i < a.len() {
            assert(key_at(a, k, i));
            lemma_to_map_at(a, i);
            if has_key(b, k) {
                let j = choose|j: int| key_at(b, k, j);
                assert(all[i].0 != all[j + a.len()].0);
            }
        } else {
            assert(key_at(b, k, i - a.len()));
            lemma_to_map_at(b, i - a.len());
        }
    }
    assert(to_map(all) =~= joined);
}

/// The position of the first entry named `key`, if there is one.
pub fn position<V>(entries: &Vec<(String, V)>, key: &str) -> (r: Option<usize>)
    ensures
        match r {
            Some(i) => {
                &&& i < entries.len()
                &&& entries@[i as int].0@ == key@
                &&& forall|j: int| 0 <= j < i ==> (#[trigger] entries@[j]).0@ != key@
            },
            None => forall|j: int| 0 <= j < entries.len() ==> (#[trigger] entries@[j]).0@ != key@,
        },
{
    let mut i: usize = 0;
    while i < entries.len()
        invariant
            i <= entries.len(),
            forall|j: int| 0 <= j < i ==> (#[trigger] entries@[j]).0@ != key@,
        decreases entries.len() - i,
    {
        if str_eq(entries[i].0.as_str(), key) {
            return Some(i);
        }
        i += 1;
    }
    None
}

} // verus!
