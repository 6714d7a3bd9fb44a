//! Sets and maps of `i32` read out into vectors, and copied.
use std::collections::HashMap;
use std::collections::HashSet;
use vstd::prelude::*;
use vstd::std_specs::hash::spec_hash_keys_iter;
use vstd::std_specs::hash::spec_keys_iter;
use vstd::std_specs::iter::IteratorSpec;

verus! {

broadcast use vstd::std_specs::hash::group_hash_axioms;

/// The elements of a set, each once, in the set's iteration order.
pub fn elements(hs: &HashSet<i32>) -> (v: Vec<i32>)
    ensures
        v@.to_set() == hs@,
        v@.no_duplicates(),
        v@.len() == hs@.len(),
        hs@.finite(),
{
    let ghost all = spec_hash_keys_iter(hs).remaining().unref();
    let mut v: Vec<i32> = Vec::new();
    for x in it: hs.iter()
        invariant
            it.seq().unref() == all,
            v@ == all.take(it.index()),
    {
        v.push(*x);
        assert(v@ =~= all.take(it.index() + 1));
    }
    assert(v@ =~= all);
    proof {
        v@.unique_seq_to_set();
    }
    v
}

/// The keys of a map, each once, in the map's iteration order.
pub fn keys_of(m: &HashMap<i32, HashSet<i32>>) -> (v: Vec<i32>)
    ensures
        v@.to_set() == m@.dom(),
        v@.no_duplicates(),
        v@.len() == m@.dom().len(),
{
    let ghost all = spec_keys_iter(m).remaining().unref();
    let mut v: Vec<i32> = Vec::new();
    for x in it: m.keys()
        invariant
            it.seq().unref() == all,
            v@ == all.take(it.index()),
    {
        v.push(*x);
        assert(v@ =~= all.take(it.index() + 1));
    }
    assert(v@ =~= all);
    v
}

/// A set with the same elements.
pub fn copy_set(hs: &HashSet<i32>) -> (r: HashSet<i32>)
    ensures
        r@ == hs@,
{
    let v = elements(hs);
    let mut r: HashSet<i32> = HashSet::new();
    let mut i: usize = 0;
    while i < v.len()
        invariant
            0 <= i <= v.len(),
            r@ == v@.take(i as int).to_set(),
        decreases v.len() - i,
    {
        r.insert(v[i]);
        proof {
            assert forall|x: i32| v@.take(i as int + 1).contains(x) <==> v@.take(i as int).contains(x)
                || x == v@[i as int] by {
                assert(v@.take(i as int + 1) =~= v@.take(i as int).push(v@[i as int]));
                lemma_push_contains(v@.take(i as int), v@[i as int], x);
            }
            assert(r@ =~= v@.take(i as int + 1).to_set());
        }
        i = i + 1;
    }
    assert(v@.take(v.len() as int) =~= v@);
    r
}

/// An element is in `s.push(x)` exactly when it is in `s` or is `x`.
pub proof fn lemma_push_contains(s: Seq<i32>, x: i32, k: i32)
    ensures
        s.push(x).contains(k) <==> s.contains(k) || k == x,
{
    if s.contains(k) {
        let j = choose|j: int| 0 <= j < s.len() && s[j] == k;
        assert(s.push(x)[j] == k);
    }
    if k == x {
        assert(s.push(x)[s.len() as int] == k);
    }
    if s.push(x).contains(k) && k != x {
        let j = choose|j: int| 0 <= j < s.len() + 1 && s.push(x)[j] == k;
        assert(s[j] == k);
    }
}

} // verus!
