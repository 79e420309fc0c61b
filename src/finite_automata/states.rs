use std::collections::HashSet;
use vstd::prelude::*;
use vstd::std_specs::iter::IteratorSpec;

verus! {

/// Whether `x` occurs in `v`.
pub fn has_state(v: &Vec<u64>, x: u64) -> (r: bool)
    ensures
        r == v@.contains(x),
{
    for i in 0..v.len()
        invariant
            forall|k: int| 0 <= k < i ==> v@[k] != x,
    {
        if v[i] == x {
            return true;
        }
    }
    false
}

/// Adds `x` to the duplicate-free list `v` unless it is there already.
pub fn insert_state(v: &mut Vec<u64>, x: u64)
    requires
        old(v)@.no_duplicates(),
    ensures
        final(v)@.no_duplicates(),
        final(v)@ == (if old(v)@.contains(x) { old(v)@ } else { old(v)@.push(x) }),
        forall|y: u64| final(v)@.contains(y) <==> (old(v)@.contains(y) || y == x),
{
    if !has_state(v, x) {
        v.push(x);
        assert forall|y: u64| final(v)@.contains(y) <==> (old(v)@.contains(y) || y == x) by {
            if old(v)@.contains(y) {
                let k = choose|k: int| 0 <= k < old(v)@.len() && old(v)@[k] == y;
                assert(final(v)@[k] == y);
            }
            if y == x {
                assert(final(v)@[old(v)@.len() as int] == y);
            }
        }
    }
}

/// A duplicate-free list whose members all occur in `u` is no longer than `u`.
pub proof fn lemma_unique_len_bound(s: Seq<u64>, u: Seq<u64>)
    requires
        s.no_duplicates(),
        forall|x: u64| s.contains(x) ==> u.contains(x),
    ensures
        s.len() <= u.len(),
{
    s.unique_seq_to_set();
    u.lemma_cardinality_of_set();
    assert(s.to_set().subset_of(u.to_set()));
    vstd::set_lib::lemma_len_subset(s.to_set(), u.to_set());
}

/// The members of `s`, each once, in the order the set yields them.
pub fn set_to_vec(s: &HashSet<u64>) -> (r: Vec<u64>)
    ensures
        r@.no_duplicates(),
        r@.to_set() == s@,
{
    broadcast use vstd::std_specs::hash::group_hash_axioms;
    let mut r: Vec<u64> = Vec::new();
    let members = s.iter();
    let ghost keys = members.remaining();
    assert(keys.unref().to_set() == s@);
    for x in it: members
        invariant
            it.seq() == keys,
            keys.unref().to_set() == s@,
            r@.no_duplicates(),
            forall|y: u64| r@.contains(y) <==> exists|k: int| 0 <= k < it.index() && *keys[k] == y,
    {
        insert_state(&mut r, *x);
        assert forall|y: u64| r@.contains(y) <==> exists|k: int| 0 <= k < it.index() + 1 && *keys[k] == y by {
            if y == *x {
                assert(*keys[it.index()] == y);
            }
        }
    }
    assert forall|y: u64| r@.to_set().contains(y) <==> s@.contains(y) by {
        if s@.contains(y) {
            assert(keys.unref().to_set().contains(y));
            let k = choose|k: int| 0 <= k < keys.unref().len() && keys.unref()[k] == y;
            assert(*keys[k] == y);
        }
        if r@.contains(y) {
            let k = choose|k: int| 0 <= k < keys.len() && *keys[k] == y;
            assert(keys.unref()[k] == y);
        }
    }
    assert(r@.to_set() =~= s@);
    r
}

/// The set of the members of `v`.
pub fn vec_to_set(v: &Vec<u64>) -> (r: HashSet<u64>)
    ensures
        r@ == v@.to_set(),
{
    broadcast use vstd::std_specs::hash::group_hash_axioms;
    let mut r: HashSet<u64> = HashSet::new();
    for k in 0..v.len()
        invariant
            r@ == v@.subrange(0, k as int).to_set(),
    {
        let ghost prefix = v@.subrange(0, k as int);
        let ghost next = v@.subrange(0, k + 1);
        let ghost before = r@;
        r.insert(v[k]);
        assert(r@ == before.insert(v@[k as int]));
        assert(before == prefix.to_set());
        assert(next =~= prefix.push(v@[k as int]));
        assert forall|y: u64| r@.contains(y) <==> next.to_set().contains(y) by {
            if y == v@[k as int] {
                assert(next[k as int] == y);
            }
            if prefix.contains(y) {
                let j = choose|j: int| 0 <= j < prefix.len() && prefix[j] == y;
                assert(next[j] == y);
            }
            if next.contains(y) {
                let j = choose|j: int| 0 <= j < next.len() && next[j] == y;
                if j < k {
                    assert(prefix[j] == y);
                }
            }
        }
        assert(r@ =~= next.to_set());
    }
    assert(v@.subrange(0, v@.len() as int) =~= v@);
    r
}

} // verus!
