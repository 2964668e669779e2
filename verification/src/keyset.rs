//! Small sets of identities, kept as vectors without repetition.

use crate::ident::{AccountId, PayloadHash};
use vstd::prelude::*;

verus! {

/// A value that can be told apart from another by comparison.
pub trait Key: Copy {
    /// Whether the two are the same value.
    fn same(&self, other: &Self) -> (r: bool)
        ensures
            r == (*self == *other),
    ;
}

impl Key for AccountId {
    fn same(&self, other: &AccountId) -> (r: bool) {
        *self == *other
    }
}

impl Key for PayloadHash {
    fn same(&self, other: &PayloadHash) -> (r: bool) {
        *self == *other
    }
}

/// Taking one element out of a sequence without repetition takes exactly
/// that value out of its set.
pub proof fn lemma_remove_to_set<K>(s: Seq<K>, i: int)
    requires
        s.no_duplicates(),
        0 <= i < s.len(),
    ensures
        s.remove(i).no_duplicates(),
        s.remove(i).to_set() == s.to_set().remove(s[i]),
{
    let r = s.remove(i);
    assert forall|a: int, b: int| 0 <= a < r.len() && 0 <= b < r.len() && a != b implies r[a]
        != r[b] by {
        let a0 = if a < i { a } else { a + 1 };
        let b0 = if b < i { b } else { b + 1 };
        assert(r[a] == s[a0] && r[b] == s[b0]);
    }
    assert forall|x: K| r.to_set().contains(x) <==> s.to_set().remove(s[i]).contains(x) by {
        if r.to_set().contains(x) {
            let a = choose|a: int| 0 <= a < r.len() && r[a] == x;
            let a0 = if a < i { a } else { a + 1 };
            assert(s[a0] == x);
        }
        if s.to_set().remove(s[i]).contains(x) {
            let a0 = choose|a0: int| 0 <= a0 < s.len() && s[a0] == x;
            let a = if a0 < i { a0 } else { a0 - 1 };
            assert(r[a] == x);
        }
    }
    assert(r.to_set() =~= s.to_set().remove(s[i]));
}

/// Adding a value that is not there keeps a sequence free of repetition.
pub proof fn lemma_push_fresh<K>(s: Seq<K>, x: K)
    requires
        s.no_duplicates(),
        !s.contains(x),
    ensures
        s.push(x).no_duplicates(),
        s.push(x).to_set() == s.to_set().insert(x),
{
    s.lemma_push_to_set_commute(x);
    assert forall|a: int, b: int|
        0 <= a < s.push(x).len() && 0 <= b < s.push(x).len() && a != b implies s.push(x)[a]
        != s.push(x)[b] by {
        if a == s.len() {
            assert(s[b] != x);
        }
        if b == s.len() {
            assert(s[a] != x);
        }
    }
}

/// A sequence without repetition is as long as its set is large.
pub proof fn lemma_len_is_set_len<K>(s: Seq<K>)
    requires
        s.no_duplicates(),
    ensures
        s.to_set().finite(),
        s.to_set().len() == s.len(),
{
    s.unique_seq_to_set();
    vstd::seq_lib::seq_to_set_is_finite(s);
}

/// Where `x` stands in `v`.
pub fn position<K: Key>(v: &Vec<K>, x: &K) -> (at: Option<usize>)
    ensures
        match at {
            Some(i) => i < v@.len() && v@[i as int] == *x,
            None => !v@.contains(*x),
        },
{
    let mut i: usize = 0;
    while i < v.len()
        invariant
            i <= v@.len(),
            forall|j: int| 0 <= j < i ==> v@[j] != *x,
        decreases v@.len() - i,
    {
        if v[i].same(x) {
            return Some(i);
        }
        i += 1;
    }
    None
}

/// Whether `x` is in the set that `v` holds.
pub fn holds<K: Key>(v: &Vec<K>, x: &K) -> (found: bool)
    ensures
        found == v@.to_set().contains(*x),
        found == v@.contains(*x),
{
    position(v, x).is_some()
}

/// Puts `x` into the set; returns whether it was new.
pub fn put<K: Key>(v: &mut Vec<K>, x: K) -> (fresh: bool)
    requires
        old(v)@.no_duplicates(),
    ensures
        final(v)@.no_duplicates(),
        final(v)@.to_set() == old(v)@.to_set().insert(x),
        fresh == !old(v)@.to_set().contains(x),
        final(v)@ == if fresh {
            old(v)@.push(x)
        } else {
            old(v)@
        },
{
    if holds(v, &x) {
        proof {
            assert(v@.to_set().insert(x) =~= v@.to_set());
        }
        false
    } else {
        proof {
            lemma_push_fresh(v@, x);
        }
        v.push(x);
        true
    }
}

/// Takes `x` out of the set; returns whether it was there.
pub fn take<K: Key>(v: &mut Vec<K>, x: &K) -> (found: bool)
    requires
        old(v)@.no_duplicates(),
    ensures
        final(v)@.no_duplicates(),
        final(v)@.to_set() == old(v)@.to_set().remove(*x),
        found == old(v)@.to_set().contains(*x),
        !found ==> final(v)@ == old(v)@,
{
    match position(v, x) {
        Some(i) => {
            proof {
                lemma_remove_to_set(v@, i as int);
            }
            v.remove(i);
            true
        },
        None => {
            proof {
                assert(v@.to_set().remove(*x) =~= v@.to_set());
            }
            false
        },
    }
}

/// The distinct values of `v`, each once, in the order of their first occurrence.
pub fn distinct<K: Key>(v: &Vec<K>) -> (set: Vec<K>)
    ensures
        set@.no_duplicates(),
        set@.to_set() == v@.to_set(),
{
    let mut set: Vec<K> = Vec::new();
    let mut i: usize = 0;
    while i < v.len()
        invariant
            i <= v@.len(),
            set@.no_duplicates(),
            set@.to_set() == v@.take(i as int).to_set(),
        decreases v@.len() - i,
    {
        proof {
            assert(v@.take(i as int + 1) =~= v@.take(i as int).push(v@[i as int]));
            v@.take(i as int).lemma_push_to_set_commute(v@[i as int]);
        }
        put(&mut set, v[i]);
        i += 1;
    }
    proof {
        assert(v@.take(v@.len() as int) =~= v@);
    }
    set
}

} // verus!
