use vstd::prelude::*;

use std::collections::HashMap;

verus! {

broadcast use vstd::std_specs::hash::group_hash_axioms;

/// The position pinned for node `id`, if any.
pub fn pinned_at<P: Copy>(pins: &HashMap<u32, P>, id: u32) -> (r: Option<P>)
    ensures
        r == (if pins@.contains_key(id) { Some(pins@[id]) } else { None }),
{
    match pins.get(&id) {
        Some(p) => Some(*p),
        None => None,
    }
}

} // verus!
