//! Entries under string keys, kept in a vector and found by scanning.
//!
//! A table is read as a map as long as no key occurs twice. The lemmas say
//! what pushing, replacing and removing an entry do to that map.

use vstd::prelude::*;

verus! {

/// A value stored under a name.
#[derive(Debug)]
pub(crate) struct Entry<V> {
    pub key: String,
    pub value: V,
}

/// Some entry of `entries` is stored under `key`.
pub(crate) open spec fn has_key<V>(entries: Seq<Entry<V>>, key: Seq<char>) -> bool {
    exists|i: int| 0 <= i < entries.len() && (#[trigger] entries[i]).key@ == key
}

/// Where the entry under `key` stands, if there is one.
pub(crate) open spec fn key_at<V>(entries: Seq<Entry<V>>, key: Seq<char>) -> int {
    choose|i: int| 0 <= i < entries.len() && (#[trigger] entries[i]).key@ == key
}

/// No key occurs twice.
pub(crate) open spec fn distinct_keys<V>(entries: Seq<Entry<V>>) -> bool {
    forall|i: int, j: int|
        0 <= i < j < entries.len() ==> (#[trigger] entries[i]).key@ != (#[trigger] entries[j]).key@
}

/// The table as a map from key to what `read` sees in the value.
pub(crate) open spec fn table_view<V, W>(entries: Seq<Entry<V>>, read: spec_fn(V) -> W) -> Map<
    Seq<char>,
    W,
> {
    Map::new(
        |key: Seq<char>| has_key(entries, key),
        |key: Seq<char>| read(entries[key_at(entries, key)].value),
    )
}

/// The position of the entry under `key`, if there is one.
pub(crate) fn find<V>(entries: &Vec<Entry<V>>, key: &String) -> (at: Option<usize>)
    ensures
        match at {
            Some(i) => i < entries.len() && entries[i as int].key@ == key@,
            None => !has_key(entries@, key@),
        },
{
    let mut i: usize = 0;
    while i < entries.len()
        invariant
            i <= entries.len(),
            forall|j: int| 0 <= j < i ==> (#[trigger] entries[j]).key@ != key@,
        decreases entries.len() - i,
    {
        if entries[i].key == *key {
            return Some(i);
        }
        i += 1;
    }
    None
}

/// Among distinct keys, an entry's key finds that entry.
pub(crate) proof fn lemma_key_at<V>(entries: Seq<Entry<V>>, i: int)
    requires
        distinct_keys(entries),
        0 <= i < entries.len(),
    ensures
        has_key(entries, entries[i].key@),
        key_at(entries, entries[i].key@) == i,
{
    let j = key_at(entries, entries[i].key@);
    assert(0 <= j < entries.len() && entries[j].key@ == entries[i].key@);
}

/// Pushing an entry under a new key adds that key to the map.
pub(crate) proof fn lemma_table_push<V, W>(
    entries: Seq<Entry<V>>,
    e: Entry<V>,
    read: spec_fn(V) -> W,
)
    requires
        distinct_keys(entries),
        !has_key(entries, e.key@),
    ensures
        distinct_keys(entries.push(e)),
        table_view(entries.push(e), read) == table_view(entries, read).insert(
            e.key@,
            read(e.value),
        ),
{
    let n = entries.push(e);
    let last = entries.len() as int;
    assert forall|i: int, j: int| 0 <= i < j < n.len() implies (#[trigger] n[i]).key@ != (
    #[trigger] n[j]).key@ by {
        assert(n[i] == entries[i]);
        if j < last {
            assert(n[j] == entries[j]);
        }
    }
    assert forall|k: Seq<char>| has_key(n, k) <==> (has_key(entries, k) || k == e.key@) by {
        if has_key(n, k) {
            let i = key_at(n, k);
            if i < last {
                assert(entries[i].key@ == k);
            }
        }
        if has_key(entries, k) {
            let i = key_at(entries, k);
            assert(n[i].key@ == k);
        }
        if k == e.key@ {
            assert(n[last].key@ == k);
        }
    }
    assert forall|k: Seq<char>| has_key(n, k) implies read(n[key_at(n, k)].value) == (if k
        == e.key@ {
        read(e.value)
    } else {
        read(entries[key_at(entries, k)].value)
    }) by {
        let i = key_at(n, k);
        if i < last {
            assert(n[i] == entries[i]);
            lemma_key_at(entries, i);
        }
    }
    assert(table_view(n, read) =~= table_view(entries, read).insert(e.key@, read(e.value)));
}

/// Replacing an entry by one under the same key replaces the key's value in
/// the map.
pub(crate) proof fn lemma_table_update<V, W>(
    entries: Seq<Entry<V>>,
    at: int,
    e: Entry<V>,
    read: spec_fn(V) -> W,
)
    requires
        distinct_keys(entries),
        0 <= at < entries.len(),
        e.key@ == entries[at].key@,
    ensures
        distinct_keys(entries.update(at, e)),
        table_view(entries.update(at, e), read) == table_view(entries, read).insert(
            e.key@,
            read(e.value),
        ),
{
    let n = entries.update(at, e);
    assert forall|i: int| 0 <= i < n.len() implies (#[trigger] n[i]).key@ == entries[i].key@ by {}
    assert forall|i: int, j: int| 0 <= i < j < n.len() implies (#[trigger] n[i]).key@ != (
    #[trigger] n[j]).key@ by {
        assert(n[i].key@ == entries[i].key@ && n[j].key@ == entries[j].key@);
    }
    assert forall|k: Seq<char>| has_key(n, k) <==> has_key(entries, k) by {
        if has_key(n, k) {
            let i = key_at(n, k);
            assert(entries[i].key@ == k);
        }
        if has_key(entries, k) {
            let i = key_at(entries, k);
            assert(n[i].key@ == k);
        }
    }
    lemma_key_at(entries, at);
    assert forall|k: Seq<char>| has_key(n, k) implies read(n[key_at(n, k)].value) == (if k
        == e.key@ {
        read(e.value)
    } else {
        read(entries[key_at(entries, k)].value)
    }) by {
        let i = key_at(n, k);
        lemma_key_at(n, i);
        lemma_key_at(entries, i);
        if i != at {
            assert(n[i] == entries[i]);
        }
    }
    assert(table_view(n, read) =~= table_view(entries, read).insert(e.key@, read(e.value)));
}

/// Removing an entry removes its key from the map.
pub(crate) proof fn lemma_table_remove<V, W>(
    entries: Seq<Entry<V>>,
    at: int,
    read: spec_fn(V) -> W,
)
    requires
        distinct_keys(entries),
        0 <= at < entries.len(),
    ensures
        distinct_keys(entries.remove(at)),
        table_view(entries.remove(at), read) == table_view(entries, read).remove(entries[at].key@),
{
    let n = entries.remove(at);
    let gone = entries[at].key@;
    assert forall|i: int| 0 <= i < n.len() implies (#[trigger] n[i]) == entries[if i < at {
        i
    } else {
        i + 1
    }] by {}
    assert forall|i: int, j: int| 0 <= i < j < n.len() implies (#[trigger] n[i]).key@ != (
    #[trigger] n[j]).key@ by {
        let a = if i < at { i } else { i + 1 };
        let b = if j < at { j } else { j + 1 };
        assert(n[i] == entries[a] && n[j] == entries[b]);
    }
    lemma_key_at(entries, at);
    assert forall|k: Seq<char>| has_key(n, k) <==> (has_key(entries, k) && k != gone) by {
        if has_key(n, k) {
            let i = key_at(n, k);
            let a = if i < at { i } else { i + 1 };
            assert(n[i] == entries[a]);
            assert(entries[a].key@ == k);
            lemma_key_at(entries, a);
        }
        if has_key(entries, k) && k != gone {
            let a = key_at(entries, k);
            let i = if a < at { a } else { a - 1 };
            assert(n[i] == entries[a]);
            assert(n[i].key@ == k);
        }
    }
    assert forall|k: Seq<char>| has_key(n, k) implies read(n[key_at(n, k)].value) == read(
        entries[key_at(entries, k)].value,
    ) by {
        let i = key_at(n, k);
        let a = if i < at { i } else { i + 1 };
        assert(n[i] == entries[a]);
        lemma_key_at(entries, a);
    }
    assert(table_view(n, read) =~= table_view(entries, read).remove(gone));
}

/// A table of distinct keys is a map of finitely many keys.
pub(crate) proof fn lemma_table_finite<V, W>(entries: Seq<Entry<V>>, read: spec_fn(V) -> W)
    requires
        distinct_keys(entries),
    ensures
        table_view(entries, read).dom().finite(),
    decreases entries.len(),
{
    if entries.len() == 0 {
        assert(table_view(entries, read).dom() =~= Set::empty());
    } else {
        let front = entries.drop_last();
        let e = entries.last();
        assert forall|i: int, j: int| 0 <= i < j < front.len() implies (#[trigger] front[i]).key@
            != (#[trigger] front[j]).key@ by {
            assert(front[i] == entries[i] && front[j] == entries[j]);
        }
        if has_key(front, e.key@) {
            let i = key_at(front, e.key@);
            assert(entries[i].key@ == entries[entries.len() - 1].key@);
        }
        lemma_table_finite(front, read);
        lemma_table_push(front, e, read);
        assert(front.push(e) =~= entries);
    }
}

} // verus!
