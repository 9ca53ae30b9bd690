use vstd::prelude::*;

use crate::automaton::StateId;
use std::collections::HashSet;
use vstd::std_specs::hash::spec_hash_keys_iter;
use vstd::std_specs::iter::IteratorSpec;

verus! {

broadcast use vstd::std_specs::hash::group_hash_axioms;

/// The set of the states listed in `v`.
pub fn id_set(v: &Vec<StateId>) -> (r: HashSet<StateId>)
    ensures
        r@ == v@.to_set(),
{
    let mut out: HashSet<StateId> = HashSet::new();
    let mut i: usize = 0;
    while i < v.len()
        invariant
            i <= v@.len(),
            out@ == v@.take(i as int).to_set(),
        decreases v.len() - i,
    {
        out.insert(v[i]);
        proof {
            assert(v@.take(i + 1) =~= v@.take(i as int).push(v@[i as int]));
            v@.take(i as int).lemma_push_to_set_commute(v@[i as int]);
        }
        i = i + 1;
    }
    assert(v@.take(v@.len() as int) =~= v@);
    out
}

/// The members of `s`, each once, in the order the set hands them out.
pub fn set_members(s: &HashSet<StateId>) -> (r: Vec<StateId>)
    ensures
        r@.no_duplicates(),
        r@.to_set() == s@,
{
    let mut out: Vec<StateId> = Vec::new();
    for x in it: s.iter()
        invariant
            out@ == it.seq().take(it.index()).map_values(|p: &StateId| *p),
            it.seq() == spec_hash_keys_iter(s).remaining(),
        ensures
            out@ == spec_hash_keys_iter(s).remaining().map_values(|p: &StateId| *p),
    {
        out.push(*x);
    }
    proof {
        let rem = spec_hash_keys_iter(s).remaining();
        assert(rem.map_values(|p: &StateId| *p) =~= rem.unref());
    }
    out
}


/// Whether `x` occurs in `v`.
pub fn contains_id(v: &Vec<StateId>, x: StateId) -> (r: bool)
    ensures
        r == v@.contains(x),
{
    let mut i: usize = 0;
    while i < v.len()
        invariant
            i <= v.len(),
            forall|j: int| 0 <= j < i ==> v@[j] != x,
        decreases v.len() - i,
    {
        if v[i] == x {
            return true;
        }
        i = i + 1;
    }
    false
}

/// Appends `x` unless it is already present; keeps `v` free of duplicates.
pub fn insert_id(v: &mut Vec<StateId>, x: StateId)
    requires
        old(v)@.no_duplicates(),
    ensures
        final(v)@.no_duplicates(),
        final(v)@.to_set() == old(v)@.to_set().insert(x),
        old(v)@.contains(x) ==> final(v)@ == old(v)@,
        !old(v)@.contains(x) ==> final(v)@ == old(v)@.push(x),
{
    if !contains_id(v, x) {
        v.push(x);
        assert(final(v)@.to_set() =~= old(v)@.to_set().insert(x)) by {
            assert forall|y: StateId| final(v)@.contains(y) <==> old(v)@.to_set().insert(x).contains(y) by {
                if final(v)@.contains(y) {
                    let k = choose|k: int| 0 <= k < final(v)@.len() && final(v)@[k] == y;
                    if k < old(v)@.len() {
                        assert(old(v)@[k] == y);
                    }
                }
                if old(v)@.contains(y) {
                    let k = choose|k: int| 0 <= k < old(v)@.len() && old(v)@[k] == y;
                    assert(final(v)@[k] == y);
                }
                if y == x {
                    assert(final(v)@[old(v)@.len() as int] == x);
                }
            }
        }
    } else {
        assert(old(v)@.to_set().insert(x) =~= old(v)@.to_set());
    }
}

/// A sequence without duplicates whose elements all occur in `u` is no longer than `u`.
pub proof fn lemma_unique_within_len<A>(v: Seq<A>, u: Seq<A>)
    requires
        v.no_duplicates(),
        forall|x: A| v.contains(x) ==> u.contains(x),
    ensures
        v.len() <= u.len(),
{
    v.unique_seq_to_set();
    u.lemma_cardinality_of_set();
    assert(v.to_set().subset_of(u.to_set()));
    vstd::set_lib::lemma_len_subset(v.to_set(), u.to_set());
}

} // verus!
