//! String-keyed association lists: a `Vec<(String, V)>` read as a map from a
//! key to the value of its first entry with that key.

use vstd::prelude::*;
use crate::text::str_eq;

verus! {

/// The value of the first entry of `entries` keyed `key`, if any.
pub open spec fn assoc_lookup<V>(entries: Seq<(String, V)>, key: Seq<char>) -> Option<V>
    decreases entries.len(),
{
    if entries.len() == 0 {
        None
    } else if entries[0].0@ == key {
        Some(entries[0].1)
    } else {
        assoc_lookup(entries.skip(1), key)
    }
}

/// Looking up past a prefix with no entry keyed `key` gives the same value as
/// looking up in the whole list.
pub proof fn lemma_lookup_skip<V>(entries: Seq<(String, V)>, i: int, key: Seq<char>)
    requires
        0 <= i <= entries.len(),
        forall|k: int| 0 <= k < i ==> entries[k].0@ != key,
    ensures
        assoc_lookup(entries.skip(i), key) == assoc_lookup(entries, key),
    decreases i,
{
    if i == 0 {
        assert(entries.skip(0) =~= entries);
    } else {
        lemma_lookup_skip(entries, i - 1, key);
        let s = entries.skip(i - 1);
        assert(s[0] == entries[i - 1]);
        assert(s.skip(1) =~= entries.skip(i));
        assert(assoc_lookup(s, key) == assoc_lookup(s.skip(1), key));
    }
}

/// The first entry keyed `key` holds the looked-up value.
pub proof fn lemma_lookup_at<V>(entries: Seq<(String, V)>, i: int, key: Seq<char>)
    requires
        0 <= i < entries.len(),
        entries[i].0@ == key,
        forall|k: int| 0 <= k < i ==> entries[k].0@ != key,
    ensures
        assoc_lookup(entries, key) == Some(entries[i].1),
{
    lemma_lookup_skip(entries, i, key);
    assert(entries.skip(i)[0] == entries[i]);
}

/// Without an entry keyed `key`, the lookup finds nothing.
pub proof fn lemma_lookup_absent<V>(entries: Seq<(String, V)>, key: Seq<char>)
    requires
        forall|k: int| 0 <= k < entries.len() ==> entries[k].0@ != key,
    ensures
        assoc_lookup(entries, key) is None,
{
    lemma_lookup_skip(entries, entries.len() as int, key);
    assert(entries.skip(entries.len() as int).len() == 0);
}

/// Replacing the value of the first entry keyed `key` makes `key` give the
/// new value and leaves every other key's value unchanged.
pub proof fn lemma_lookup_update<V>(
    entries: Seq<(String, V)>,
    i: int,
    key: Seq<char>,
    e: (String, V),
    probe: Seq<char>,
)
    requires
        0 <= i < entries.len(),
        entries[i].0@ == key,
        e.0@ == key,
        forall|k: int| 0 <= k < i ==> entries[k].0@ != key,
    ensures
        assoc_lookup(entries.update(i, e), probe) == if probe == key {
            Some(e.1)
        } else {
            assoc_lookup(entries, probe)
        },
    decreases i,
{
    let u = entries.update(i, e);
    if i == 0 {
        assert(u[0] == e);
        assert(u.skip(1) =~= entries.skip(1));
    } else {
        assert(u[0] == entries[0]);
        assert(u.skip(1) =~= entries.skip(1).update(i - 1, e));
        lemma_lookup_update(entries.skip(1), i - 1, key, e, probe);
    }
}

/// Appending an entry under a key the list does not hold makes that key give
/// the new value and leaves every other key's value unchanged.
pub proof fn lemma_lookup_push<V>(entries: Seq<(String, V)>, e: (String, V), probe: Seq<char>)
    requires
        forall|k: int| 0 <= k < entries.len() ==> entries[k].0@ != e.0@,
    ensures
        assoc_lookup(entries.push(e), probe) == if probe == e.0@ {
            Some(e.1)
        } else {
            assoc_lookup(entries, probe)
        },
    decreases entries.len(),
{
    let p = entries.push(e);
    if entries.len() == 0 {
        assert(p[0] == e);
        assert(p.skip(1).len() == 0);
        assert(assoc_lookup(p.skip(1), probe) is None);
        assert(assoc_lookup(entries, probe) is None);
    } else {
        assert(p[0] == entries[0]);
        assert(p.skip(1) =~= entries.skip(1).push(e));
        assert forall|k: int| 0 <= k < entries.skip(1).len() implies entries.skip(1)[k].0@
            != e.0@ by {
            assert(entries.skip(1)[k] == entries[k + 1]);
        }
        lemma_lookup_push(entries.skip(1), e, probe);
        assert(entries[0].0@ != e.0@);
    }
}

/// The position of the first entry keyed `key`, if any.
pub fn assoc_position<V>(entries: &Vec<(String, V)>, key: &str) -> (r: Option<usize>)
    ensures
        match r {
            Some(i) => {
                &&& i < entries@.len()
                &&& entries@[i as int].0@ == key@
                &&& forall|k: int| 0 <= k < i ==> entries@[k].0@ != key@
                &&& assoc_lookup(entries@, key@) == Some(entries@[i as int].1)
            },
            None => {
                &&& forall|k: int| 0 <= k < entries@.len() ==> entries@[k].0@ != key@
                &&& assoc_lookup(entries@, key@) is None
            },
        },
{
    let n = entries.len();
    let mut i: usize = 0;
    while i < n
        invariant
            n == entries@.len(),
            i <= n,
            forall|k: int| 0 <= k < i ==> entries@[k].0@ != key@,
        decreases n - i,
    {
        if str_eq(entries[i].0.as_str(), key) {
            proof {
                lemma_lookup_at(entries@, i as int, key@);
            }
            return Some(i);
        }
        i = i + 1;
    }
    proof {
        lemma_lookup_absent(entries@, key@);
    }
    None
}

} // verus!
