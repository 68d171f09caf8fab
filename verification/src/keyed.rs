//! Sequences of records that are found by a key, and how many records of a
//! sequence satisfy a predicate.

use vstd::prelude::*;
use crate::types::Principal;

verus! {

/// A record that is identified by a principal.
pub trait Keyed {
    /// The principal that identifies this record.
    spec fn key(&self) -> Principal;

    /// Reads the key.
    fn key_of(&self) -> (k: Principal)
        ensures
            k == self.key(),
    ;
}

impl Keyed for Principal {
    open spec fn key(&self) -> Principal {
        *self
    }

    fn key_of(&self) -> (k: Principal) {
        *self
    }
}

/// No two records of `s` share a key.
pub open spec fn keys_distinct<T: Keyed>(s: Seq<T>) -> bool {
    forall|i: int, j: int| 0 <= i < j < s.len() ==> (#[trigger] s[i]).key()
        != (#[trigger] s[j]).key()
}

/// Some record of `s` has key `k`.
pub open spec fn has_key<T: Keyed>(s: Seq<T>, k: Principal) -> bool {
    exists|i: int| 0 <= i < s.len() && (#[trigger] s[i]).key() == k
}

/// The position of a record with key `k`, where there is one.
pub open spec fn index_of_key<T: Keyed>(s: Seq<T>, k: Principal) -> int {
    choose|i: int| 0 <= i < s.len() && (#[trigger] s[i]).key() == k
}

/// The record with key `k`, if any.
pub open spec fn lookup<T: Keyed>(s: Seq<T>, k: Principal) -> Option<T> {
    if has_key(s, k) {
        Some(s[index_of_key(s, k)])
    } else {
        None
    }
}

/// Whether `d` stands before position `i` in `s`.
pub open spec fn listed_before(s: Seq<Principal>, i: int, d: Principal) -> bool {
    exists|j: int| 0 <= j < i && j < s.len() && #[trigger] s[j] == d
}

/// The keys of the records, in order.
pub open spec fn keys_of<T: Keyed>(s: Seq<T>) -> Seq<Principal> {
    Seq::new(s.len(), |i: int| s[i].key())
}

/// With distinct keys, a record is found at its own position.
pub proof fn lemma_found_at<T: Keyed>(s: Seq<T>, i: int)
    requires
        keys_distinct(s),
        0 <= i < s.len(),
    ensures
        has_key(s, s[i].key()),
        index_of_key(s, s[i].key()) == i,
        lookup(s, s[i].key()) == Some(s[i]),
{
}

/// A key that is found belongs to a record of the sequence.
pub proof fn lemma_lookup_index<T: Keyed>(s: Seq<T>, k: Principal)
    requires
        has_key(s, k),
    ensures
        0 <= index_of_key(s, k) < s.len(),
        s[index_of_key(s, k)].key() == k,
        lookup(s, k) == Some(s[index_of_key(s, k)]),
{
}

/// The keys listed are the keys that are found.
pub proof fn lemma_keys_of<T: Keyed>(s: Seq<T>)
    ensures
        forall|k: Principal| keys_of(s).contains(k) <==> has_key(s, k),
        keys_distinct(s) ==> keys_of(s).no_duplicates(),
{
    let ks = keys_of(s);
    assert forall|k: Principal| ks.contains(k) <==> has_key(s, k) by {
        if ks.contains(k) {
            let i = choose|i: int| 0 <= i < ks.len() && ks[i] == k;
            assert(s[i].key() == k);
        }
        if has_key(s, k) {
            assert(ks[index_of_key(s, k)] == k);
        }
    }
}

/// Replacing a record by one with the same key changes what is found under
/// that key and nothing else.
pub proof fn lemma_update<T: Keyed>(s: Seq<T>, i: int, t: T)
    requires
        keys_distinct(s),
        0 <= i < s.len(),
        t.key() == s[i].key(),
    ensures
        keys_distinct(s.update(i, t)),
        keys_of(s.update(i, t)) == keys_of(s),
        forall|k: Principal| has_key(s.update(i, t), k) == has_key(s, k),
        lookup(s.update(i, t), t.key()) == Some(t),
        forall|k: Principal| k != t.key() ==> lookup(s.update(i, t), k) == lookup(s, k),
{
    let u = s.update(i, t);
    assert(keys_of(u) =~= keys_of(s));
    assert forall|k: Principal| has_key(u, k) == has_key(s, k) && (k != t.key() ==> lookup(u, k)
        == lookup(s, k)) by {
        if has_key(s, k) {
            let j = index_of_key(s, k);
            assert(u[j].key() == k);
            lemma_found_at(u, j);
        }
        if has_key(u, k) {
            let j = index_of_key(u, k);
            assert(s[j].key() == k);
            lemma_found_at(s, j);
        }
    }
    lemma_found_at(u, i);
}

/// Appending a record with a fresh key adds that key and changes nothing
/// else.
pub proof fn lemma_push<T: Keyed>(s: Seq<T>, t: T)
    requires
        keys_distinct(s),
        !has_key(s, t.key()),
    ensures
        keys_distinct(s.push(t)),
        keys_of(s.push(t)) == keys_of(s).push(t.key()),
        has_key(s.push(t), t.key()),
        lookup(s.push(t), t.key()) == Some(t),
        forall|k: Principal| k != t.key() ==> has_key(s.push(t), k) == has_key(s, k),
        forall|k: Principal| k != t.key() ==> lookup(s.push(t), k) == lookup(s, k),
{
    let u = s.push(t);
    assert(keys_of(u) =~= keys_of(s).push(t.key()));
    assert forall|a: int, b: int| 0 <= a < b < u.len() implies (#[trigger] u[a]).key() != (
    #[trigger] u[b]).key() by {
        if b == s.len() {
            assert(s[a].key() != t.key());
        }
    }
    lemma_found_at(u, s.len() as int);
    assert forall|k: Principal| k != t.key() implies has_key(u, k) == has_key(s, k) && lookup(u, k)
        == lookup(s, k) by {
        if has_key(s, k) {
            let j = index_of_key(s, k);
            assert(u[j].key() == k);
            lemma_found_at(u, j);
        }
        if has_key(u, k) {
            let j = index_of_key(u, k);
            assert(s[j].key() == k);
            lemma_found_at(s, j);
        }
    }
}

/// Removing a record removes its key and changes nothing else.
pub proof fn lemma_remove<T: Keyed>(s: Seq<T>, i: int)
    requires
        keys_distinct(s),
        0 <= i < s.len(),
    ensures
        keys_distinct(s.remove(i)),
        keys_of(s.remove(i)) == keys_of(s).remove(i),
        !has_key(s.remove(i), s[i].key()),
        lookup(s.remove(i), s[i].key()) == None::<T>,
        forall|k: Principal| k != s[i].key() ==> has_key(s.remove(i), k) == has_key(s, k),
        forall|k: Principal| k != s[i].key() ==> lookup(s.remove(i), k) == lookup(s, k),
{
    let u = s.remove(i);
    assert(keys_of(u) =~= keys_of(s).remove(i));
    assert forall|a: int, b: int| 0 <= a < b < u.len() implies (#[trigger] u[a]).key() != (
    #[trigger] u[b]).key() by {
        let sa = if a < i { a } else { a + 1 };
        let sb = if b < i { b } else { b + 1 };
        assert(u[a] == s[sa]);
        assert(u[b] == s[sb]);
    }
    if has_key(u, s[i].key()) {
        let j = index_of_key(u, s[i].key());
        let sj = if j < i { j } else { j + 1 };
        assert(u[j] == s[sj]);
    }
    assert forall|k: Principal| k != s[i].key() implies has_key(u, k) == has_key(s, k) && lookup(
        u,
        k,
    ) == lookup(s, k) by {
        if has_key(s, k) {
            let j = index_of_key(s, k);
            let uj = if j < i { j } else { j - 1 };
            assert(u[uj] == s[j]);
            lemma_found_at(u, uj);
        }
        if has_key(u, k) {
            let j = index_of_key(u, k);
            let sj = if j < i { j } else { j + 1 };
            assert(u[j] == s[sj]);
            lemma_found_at(s, sj);
        }
    }
}

/// The position of the record with key `k`, if there is one.
pub fn find_key<T: Keyed>(v: &Vec<T>, k: Principal) -> (found: Option<usize>)
    requires
        keys_distinct(v@),
    ensures
        match found {
            Some(i) => i < v@.len() && v@[i as int].key() == k && has_key(v@, k) && index_of_key(
                v@,
                k,
            ) == i && lookup(v@, k) == Some(v@[i as int]),
            None => !has_key(v@, k) && lookup(v@, k) == None::<T>,
        },
{
    let mut i: usize = 0;
    while i < v.len()
        invariant
            i <= v@.len(),
            keys_distinct(v@),
            forall|j: int| 0 <= j < i ==> (#[trigger] v@[j]).key() != k,
        decreases v@.len() - i,
    {
        if v[i].key_of() == k {
            proof {
                lemma_found_at(v@, i as int);
            }
            return Some(i);
        }
        i = i + 1;
    }
    None
}

/// Whether no two records of `v` share a key.
pub fn all_distinct<T: Keyed>(v: &Vec<T>) -> (distinct: bool)
    ensures
        distinct == keys_distinct(v@),
{
    let mut j: usize = 0;
    while j < v.len()
        invariant
            j <= v@.len(),
            keys_distinct(v@.take(j as int)),
        decreases v@.len() - j,
    {
        let k = v[j].key_of();
        let mut i: usize = 0;
        while i < j
            invariant
                i <= j < v@.len(),
                k == v@[j as int].key(),
                forall|a: int| 0 <= a < i ==> (#[trigger] v@[a]).key() != k,
            decreases j - i,
        {
            if v[i].key_of() == k {
                return false;
            }
            i = i + 1;
        }
        proof {
            let next = v@.take(j as int + 1);
            let prev = v@.take(j as int);
            assert forall|a: int, b: int| 0 <= a < b < next.len() implies (#[trigger] next[a]).key()
                != (#[trigger] next[b]).key() by {
                if b < j {
                    assert(prev[a].key() != prev[b].key());
                } else {
                    assert(v@[a].key() != k);
                }
            }
        }
        j = j + 1;
    }
    proof {
        assert(v@.take(j as int) =~= v@);
    }
    true
}

/// How many records of `s` satisfy `p`.
pub open spec fn count_where<T>(s: Seq<T>, p: spec_fn(T) -> bool) -> nat
    decreases s.len(),
{
    if s.len() == 0 {
        0
    } else {
        count_where(s.drop_last(), p) + if p(s.last()) {
            1nat
        } else {
            0nat
        }
    }
}

/// A count never exceeds the length, and is zero exactly when no record
/// satisfies the predicate.
pub proof fn lemma_count_bounds<T>(s: Seq<T>, p: spec_fn(T) -> bool)
    ensures
        count_where(s, p) <= s.len(),
        count_where(s, p) == 0 <==> forall|i: int| 0 <= i < s.len() ==> !p(#[trigger] s[i]),
        count_where(s, p) == s.len() <==> forall|i: int| 0 <= i < s.len() ==> p(#[trigger] s[i]),
    decreases s.len(),
{
    if s.len() > 0 {
        let t = s.drop_last();
        lemma_count_bounds(t, p);
        assert forall|i: int| 0 <= i < t.len() implies t[i] == s[i] by {}
        if count_where(s, p) == 0 {
            assert forall|i: int| 0 <= i < s.len() implies !p(#[trigger] s[i]) by {
                if i < t.len() {
                    assert(t[i] == s[i]);
                }
            }
        }
        if forall|i: int| 0 <= i < s.len() ==> !p(#[trigger] s[i]) {
            assert forall|i: int| 0 <= i < t.len() implies !p(#[trigger] t[i]) by {
                assert(t[i] == s[i]);
            }
            assert(!p(s[s.len() - 1]));
        }
        if count_where(s, p) == s.len() {
            assert forall|i: int| 0 <= i < s.len() implies p(#[trigger] s[i]) by {
                if i < t.len() {
                    assert(t[i] == s[i]);
                }
            }
        }
        if forall|i: int| 0 <= i < s.len() ==> p(#[trigger] s[i]) {
            assert forall|i: int| 0 <= i < t.len() implies p(#[trigger] t[i]) by {
                assert(t[i] == s[i]);
            }
            assert(p(s[s.len() - 1]));
        }
    }
}

/// Taking one more record adds one to the count if that record satisfies
/// the predicate.
pub proof fn lemma_count_step<T>(s: Seq<T>, p: spec_fn(T) -> bool, i: int)
    requires
        0 <= i < s.len(),
    ensures
        count_where(s.take(i + 1), p) == count_where(s.take(i), p) + if p(s[i]) {
            1nat
        } else {
            0nat
        },
{
    assert(s.take(i + 1).drop_last() =~= s.take(i));
}

/// Counting a concatenation adds the counts.
pub proof fn lemma_count_concat<T>(a: Seq<T>, b: Seq<T>, p: spec_fn(T) -> bool)
    ensures
        count_where(a + b, p) == count_where(a, p) + count_where(b, p),
    decreases b.len(),
{
    if b.len() == 0 {
        assert(a + b =~= a);
    } else {
        assert((a + b).drop_last() =~= a + b.drop_last());
        lemma_count_concat(a, b.drop_last(), p);
    }
}

/// Appending a record adds one to the count if it satisfies the predicate.
pub proof fn lemma_count_push<T>(s: Seq<T>, p: spec_fn(T) -> bool, t: T)
    ensures
        count_where(s.push(t), p) == count_where(s, p) + if p(t) {
            1nat
        } else {
            0nat
        },
{
    assert(s.push(t).drop_last() =~= s);
}

/// Replacing a record changes the count by what the old and the new record
/// contribute.
pub proof fn lemma_count_update<T>(s: Seq<T>, p: spec_fn(T) -> bool, i: int, t: T)
    requires
        0 <= i < s.len(),
    ensures
        count_where(s.update(i, t), p) + (if p(s[i]) {
            1nat
        } else {
            0nat
        }) == count_where(s, p) + if p(t) {
            1nat
        } else {
            0nat
        },
{
    let head = s.take(i);
    let tail = s.skip(i + 1);
    assert(s =~= head + seq![s[i]] + tail);
    assert(s.update(i, t) =~= head + seq![t] + tail);
    lemma_count_concat(head + seq![s[i]], tail, p);
    lemma_count_concat(head, seq![s[i]], p);
    lemma_count_concat(head + seq![t], tail, p);
    lemma_count_concat(head, seq![t], p);
    assert(seq![s[i]].drop_last() =~= Seq::<T>::empty());
    assert(seq![t].drop_last() =~= Seq::<T>::empty());
    assert(count_where(seq![s[i]].drop_last(), p) == 0);
    assert(count_where(seq![t].drop_last(), p) == 0);
}

/// Removing a record takes its contribution from the count.
pub proof fn lemma_count_remove<T>(s: Seq<T>, p: spec_fn(T) -> bool, i: int)
    requires
        0 <= i < s.len(),
    ensures
        count_where(s.remove(i), p) + (if p(s[i]) {
            1nat
        } else {
            0nat
        }) == count_where(s, p),
{
    let head = s.take(i);
    let tail = s.skip(i + 1);
    assert(s =~= head + seq![s[i]] + tail);
    assert(s.remove(i) =~= head + tail);
    lemma_count_concat(head + seq![s[i]], tail, p);
    lemma_count_concat(head, seq![s[i]], p);
    lemma_count_concat(head, tail, p);
    assert(seq![s[i]].drop_last() =~= Seq::<T>::empty());
    assert(count_where(seq![s[i]].drop_last(), p) == 0);
}

} // verus!
