//! String-keyed entry lists kept in strictly increasing key order (the order a
//! `BTreeMap` iterates in), read as a map from key to value.

use vstd::prelude::*;
use crate::assoc::{assoc_lookup, lemma_lookup_at};
use crate::view::reversed;
use crate::text::{lemma_seq_less_asym, lemma_seq_less_irrefl, lemma_seq_less_total, lemma_seq_less_trans, seq_less, str_eq, str_less};

verus! {

/// The keys are strictly increasing.
pub open spec fn keys_sorted<V>(entries: Seq<(String, V)>) -> bool {
    forall|i: int, j: int| 0 <= i < j < entries.len() ==> seq_less(entries[i].0@, entries[j].0@)
}

/// Whether some entry is keyed `k`.
pub open spec fn has_key<V>(entries: Seq<(String, V)>, k: Seq<char>) -> bool {
    exists|i: int| 0 <= i < entries.len() && #[trigger] entries[i].0@ == k
}

/// The entries read as a map from key to value.
pub open spec fn sorted_map<V>(entries: Seq<(String, V)>) -> Map<Seq<char>, V> {
    Map::new(|k: Seq<char>| has_key(entries, k), |k: Seq<char>| assoc_lookup(entries, k)->0)
}

/// In a sorted list each key occurs once, so the map gives each entry's value
/// under its key.
pub proof fn lemma_sorted_map_at<V>(entries: Seq<(String, V)>, i: int)
    requires
        keys_sorted(entries),
        0 <= i < entries.len(),
    ensures
        sorted_map(entries).contains_key(entries[i].0@),
        sorted_map(entries)[entries[i].0@] == entries[i].1,
{
    let k = entries[i].0@;
    assert(has_key(entries, k));
    assert forall|c: int| 0 <= c < i implies entries[c].0@ != k by {
        assert(seq_less(entries[c].0@, entries[i].0@));
        lemma_seq_less_irrefl(k);
    }
    lemma_lookup_at(entries, i, k);
}

/// The position of the entry keyed `key`, if any.
pub fn sorted_position<V>(entries: &Vec<(String, V)>, key: &str) -> (r: Option<usize>)
    requires
        keys_sorted(entries@),
    ensures
        match r {
            Some(i) => i < entries@.len() && entries@[i as int].0@ == key@ && sorted_map(entries@).contains_key(key@)
                && sorted_map(entries@)[key@] == entries@[i as int].1,
            None => !sorted_map(entries@).contains_key(key@),
        },
{
    let mut i: usize = 0;
    while i < entries.len()
        invariant
            i <= entries@.len(),
            keys_sorted(entries@),
            forall|k: int| 0 <= k < i ==> entries@[k].0@ != key@,
        decreases entries@.len() - i,
    {
        if str_eq(entries[i].0.as_str(), key) {
            proof {
                lemma_sorted_map_at(entries@, i as int);
            }
            return Some(i);
        }
        i = i + 1;
    }
    None
}

/// Map `key` onto `value` in a sorted list, replacing an entry with the same
/// key or inserting a new one at its sorted position.
pub fn insert_sorted<V>(entries: &mut Vec<(String, V)>, key: String, value: V)
    requires
        keys_sorted(old(entries)@),
    ensures
        keys_sorted(final(entries)@),
        sorted_map(final(entries)@) == sorted_map(old(entries)@).insert(key@, value),
{
    let ghost before = entries@;
    let ghost kv = key@;
    let n = entries.len();
    let mut p: usize = 0;
    let mut found = false;
    while p < n && !found
        invariant
            n == entries@.len(),
            entries@ == before,
            p <= n,
            kv == key@,
            forall|k: int| 0 <= k < p ==> seq_less(#[trigger] entries@[k].0@, kv),
            found ==> p < n && !seq_less(entries@[p as int].0@, kv),
        decreases n - p, if found { 0int } else { 1int },
    {
        if str_less(entries[p].0.as_str(), key.as_str()) {
            p = p + 1;
        } else {
            found = true;
        }
    }
    proof {
        if p < n {
            lemma_seq_less_total(entries@[p as int].0@, kv);
        }
    }
    if p < n && str_eq(entries[p].0.as_str(), key.as_str()) {
        let e = (key, value);
        let ghost ev = e;
        entries.set(p, e);
        proof {
            let after = entries@;
            assert forall|i: int, j: int| 0 <= i < j < after.len() implies seq_less(after[i].0@, after[j].0@) by {
                assert(seq_less(before[i].0@, before[j].0@));
            }
            assert forall|k: Seq<char>| #[trigger] has_key(after, k) <==> has_key(before, k) by {
                if has_key(before, k) {
                    let i = choose|i: int| 0 <= i < before.len() && #[trigger] before[i].0@ == k;
                    assert(after[i].0@ == k);
                }
                if has_key(after, k) {
                    let i = choose|i: int| 0 <= i < after.len() && #[trigger] after[i].0@ == k;
                    assert(before[i].0@ == k);
                }
            }
            assert(has_key(before, kv)) by {
                assert(before[p as int].0@ == kv);
            }
            assert forall|k: Seq<char>| #[trigger] sorted_map(after).contains_key(k) implies sorted_map(after)[k]
                == sorted_map(before).insert(kv, ev.1)[k] by {
                let i = choose|i: int| 0 <= i < after.len() && #[trigger] after[i].0@ == k;
                lemma_sorted_map_at(after, i);
                lemma_sorted_map_at(before, i);
            }
            assert(sorted_map(after) =~= sorted_map(before).insert(kv, ev.1));
        }
    } else {
        let e = (key, value);
        let ghost ev = e;
        entries.insert(p, e);
        proof {
            let after = entries@;
            assert(after =~= before.insert(p as int, ev));
            if p < n {
                assert(seq_less(kv, before[p as int].0@));
            }
            assert forall|i: int, j: int| 0 <= i < j < after.len() implies seq_less(after[i].0@, after[j].0@) by {
                if j < p {
                    assert(seq_less(before[i].0@, before[j].0@));
                } else if j == p {
                    assert(after[i] == before[i]);
                } else if i < p {
                    assert(after[j] == before[j - 1]);
                    assert(seq_less(before[i].0@, kv));
                    if j - 1 > p {
                        assert(seq_less(before[p as int].0@, before[j - 1].0@));
                        lemma_seq_less_trans(kv, before[p as int].0@, before[j - 1].0@);
                    }
                    lemma_seq_less_trans(before[i].0@, kv, before[j - 1].0@);
                } else if i == p {
                    assert(after[j] == before[j - 1]);
                    if j - 1 > p {
                        assert(seq_less(before[p as int].0@, before[j - 1].0@));
                        lemma_seq_less_trans(kv, before[p as int].0@, before[j - 1].0@);
                    }
                } else {
                    assert(after[i] == before[i - 1] && after[j] == before[j - 1]);
                    assert(seq_less(before[i - 1].0@, before[j - 1].0@));
                }
            }
            assert forall|k: Seq<char>| #[trigger] has_key(after, k) <==> (has_key(before, k) || k == kv) by {
                if has_key(before, k) {
                    let i = choose|i: int| 0 <= i < before.len() && #[trigger] before[i].0@ == k;
                    if i < p {
                        assert(after[i].0@ == k);
                    } else {
                        assert(after[i + 1].0@ == k);
                    }
                }
                if k == kv {
                    assert(after[p as int].0@ == k);
                }
                if has_key(after, k) {
                    let i = choose|i: int| 0 <= i < after.len() && #[trigger] after[i].0@ == k;
                    if i < p {
                        assert(before[i].0@ == k);
                    } else if i > p {
                        assert(before[i - 1].0@ == k);
                    }
                }
            }
            assert forall|k: Seq<char>| #[trigger] sorted_map(after).contains_key(k) implies sorted_map(after)[k]
                == sorted_map(before).insert(kv, ev.1)[k] by {
                let i = choose|i: int| 0 <= i < after.len() && #[trigger] after[i].0@ == k;
                lemma_sorted_map_at(after, i);
                if i < p {
                    lemma_sorted_map_at(before, i);
                    assert(seq_less(k, kv));
                    lemma_seq_less_irrefl(kv);
                } else if i > p {
                    lemma_sorted_map_at(before, i - 1);
                    if i - 1 > p {
                        assert(seq_less(before[p as int].0@, before[i - 1].0@));
                        lemma_seq_less_trans(kv, before[p as int].0@, before[i - 1].0@);
                    }
                    assert(seq_less(kv, k));
                    lemma_seq_less_irrefl(kv);
                }
            }
            assert(sorted_map(after) =~= sorted_map(before).insert(kv, ev.1));
        }
    }
}

/// Drop the entry at position `i` of a sorted list.
pub fn remove_sorted<V>(entries: &mut Vec<(String, V)>, i: usize) -> (r: (String, V))
    requires
        keys_sorted(old(entries)@),
        i < old(entries)@.len(),
    ensures
        r == old(entries)@[i as int],
        keys_sorted(final(entries)@),
        final(entries)@ == old(entries)@.remove(i as int),
        sorted_map(final(entries)@) == sorted_map(old(entries)@).remove(r.0@),
{
    let ghost before = entries@;
    let r = entries.remove(i);
    proof {
        let after = entries@;
        let kv = r.0@;
        assert forall|a: int, b: int| 0 <= a < b < after.len() implies seq_less(after[a].0@, after[b].0@) by {
            let a2 = if a < i { a } else { a + 1 };
            let b2 = if b < i { b } else { b + 1 };
            assert(after[a] == before[a2] && after[b] == before[b2]);
        }
        assert forall|k: Seq<char>| #[trigger] has_key(after, k) <==> (has_key(before, k) && k != kv) by {
            if has_key(before, k) && k != kv {
                let j = choose|j: int| 0 <= j < before.len() && #[trigger] before[j].0@ == k;
                if j < i {
                    assert(after[j].0@ == k);
                } else {
                    assert(j != i);
                    assert(after[j - 1].0@ == k);
                }
            }
            if has_key(after, k) {
                let j = choose|j: int| 0 <= j < after.len() && #[trigger] after[j].0@ == k;
                let j2 = if j < i { j } else { j + 1 };
                assert(before[j2].0@ == k);
                if j2 < i {
                    assert(seq_less(before[j2].0@, before[i as int].0@));
                    lemma_seq_less_irrefl(k);
                } else {
                    assert(seq_less(before[i as int].0@, before[j2].0@));
                    lemma_seq_less_irrefl(k);
                }
            }
        }
        assert forall|k: Seq<char>| #[trigger] sorted_map(after).contains_key(k) implies sorted_map(after)[k]
            == sorted_map(before).remove(kv)[k] by {
            let j = choose|j: int| 0 <= j < after.len() && #[trigger] after[j].0@ == k;
            lemma_sorted_map_at(after, j);
            let j2 = if j < i { j } else { j + 1 };
            assert(after[j] == before[j2]);
            lemma_sorted_map_at(before, j2);
        }
        assert(sorted_map(after) =~= sorted_map(before).remove(kv));
    }
    r
}

/// Two sorted lists with the same keys list them in the same order.
pub proof fn lemma_same_keys_same_order<V, W>(a: Seq<(String, V)>, b: Seq<(String, W)>)
    requires
        keys_sorted(a),
        keys_sorted(b),
        forall|k: Seq<char>| #![trigger has_key(a, k)] #![trigger has_key(b, k)] has_key(a, k) <==> has_key(b, k),
    ensures
        a.len() == b.len(),
        forall|i: int| 0 <= i < a.len() ==> (#[trigger] a[i]).0@ == b[i].0@,
    decreases a.len(),
{
    if a.len() == 0 {
        if b.len() > 0 {
            assert(has_key(b, b[0].0@));
        }
    } else if b.len() == 0 {
        assert(has_key(a, a[0].0@));
    } else {
        let a0 = a[0].0@;
        let b0 = b[0].0@;
        assert(has_key(a, a0));
        assert(has_key(b, b0));
        let j = choose|j: int| 0 <= j < b.len() && #[trigger] b[j].0@ == a0;
        let i = choose|i: int| 0 <= i < a.len() && #[trigger] a[i].0@ == b0;
        if i > 0 && j > 0 {
            assert(seq_less(a[0].0@, a[i].0@));
            assert(seq_less(b[0].0@, b[j].0@));
            lemma_seq_less_asym(a0, b0);
        }
        assert(a0 == b0);
        let a1 = a.skip(1);
        let b1 = b.skip(1);
        assert forall|k: Seq<char>| #![trigger has_key(a1, k)] #![trigger has_key(b1, k)] has_key(a1, k) <==> has_key(b1, k) by {
            if has_key(a1, k) {
                let x = choose|x: int| 0 <= x < a1.len() && #[trigger] a1[x].0@ == k;
                assert(a[x + 1].0@ == k);
                assert(seq_less(a0, k));
                lemma_seq_less_irrefl(k);
                assert(has_key(a, k));
                let y = choose|y: int| 0 <= y < b.len() && #[trigger] b[y].0@ == k;
                assert(y != 0);
                assert(b1[y - 1].0@ == k);
            }
            if has_key(b1, k) {
                let x = choose|x: int| 0 <= x < b1.len() && #[trigger] b1[x].0@ == k;
                assert(b[x + 1].0@ == k);
                assert(seq_less(b0, k));
                lemma_seq_less_irrefl(k);
                assert(has_key(b, k));
                let y = choose|y: int| 0 <= y < a.len() && #[trigger] a[y].0@ == k;
                assert(y != 0);
                assert(a1[y - 1].0@ == k);
            }
        }
        lemma_same_keys_same_order(a1, b1);
        assert forall|x: int| 0 <= x < a.len() implies (#[trigger] a[x]).0@ == b[x].0@ by {
            if x > 0 {
                assert(a1[x - 1] == a[x]);
                assert(b1[x - 1] == b[x]);
            }
        }
    }
}

/// Map each entry's key onto its value in order, later entries winning.
pub open spec fn inserted_all<V>(m: Map<Seq<char>, V>, es: Seq<(String, V)>) -> Map<Seq<char>, V>
    decreases es.len(),
{
    if es.len() == 0 {
        m
    } else {
        inserted_all(m, es.drop_last()).insert(es.last().0@, es.last().1)
    }
}

/// Insert each of `items` into a sorted list, consuming them, later items
/// winning on a repeated key.
pub fn insert_each_sorted<V>(entries: &mut Vec<(String, V)>, items: Vec<(String, V)>)
    requires
        keys_sorted(old(entries)@),
    ensures
        keys_sorted(final(entries)@),
        sorted_map(final(entries)@) == inserted_all(sorted_map(old(entries)@), items@),
{
    let ghost start = sorted_map(entries@);
    let ghost all = items@;
    let n = items.len();
    let mut rest = reversed(items);
    let mut i: usize = 0;
    proof {
        assert(all.take(0) =~= Seq::<(String, V)>::empty());
        assert(rest@ =~= all.subrange(0, n as int).reverse());
    }
    while i < n
        invariant
            n == all.len(),
            i <= n,
            rest@ == all.subrange(i as int, n as int).reverse(),
            keys_sorted(entries@),
            sorted_map(entries@) == inserted_all(start, all.take(i as int)),
        decreases n - i,
    {
        let ghost rv0 = rest@;
        proof {
            assert(rv0.len() == n - i);
        }
        let e = rest.pop().unwrap();
        proof {
            assert(e == all[i as int]);
            assert(rest@ =~= rv0.drop_last());
            assert forall|k: int| 0 <= k < n - i - 1 implies #[trigger] rest@[k] == all.subrange(
                i + 1,
                n as int,
            ).reverse()[k] by {
                assert(rv0[k] == all.subrange(i as int, n as int)[n - i - 1 - k]);
            }
            assert(rest@ =~= all.subrange(i + 1, n as int).reverse());
            assert(all.take(i + 1).drop_last() =~= all.take(i as int));
        }
        let (k, v) = e;
        insert_sorted(entries, k, v);
        i = i + 1;
    }
    proof {
        assert(all.take(n as int) =~= all);
    }
}

} // verus!
