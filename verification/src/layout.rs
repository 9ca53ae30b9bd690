use vstd::prelude::*;

use crate::automaton::{BoxId, StateId};
use crate::graph::{GraphBox, GraphEdge};
use crate::visibility::BoxVisibility;

verus! {

broadcast use vstd::seq_lib::group_to_multiset_ensures;

// ---------------------------------------------------------------------------
// Box colours
// ---------------------------------------------------------------------------

/// Product modulo 2^64.
pub open spec fn mul64(x: u64, y: u64) -> u64 {
    ((x as nat * y as nat) % 0x1_0000_0000_0000_0000nat) as u64
}

/// The 64-bit mix of a box identifier from which its colour is taken.
pub open spec fn box_mix(id: BoxId) -> u64 {
    let v0 = mul64((id as u64 + 1) as u64, 0x9E37_79B9_7F4A_7C15u64);
    let v1 = v0 ^ (v0 >> 33u64);
    let v2 = mul64(v1, 0xC2B2_AE35_0A97_0A4Du64);
    let v3 = v2 ^ (v2 >> 29u64);
    mul64(v3, 0x1656_67B1_9E37_9B97u64)
}

/// Red, green and blue bytes of the colour of box `id`: bits 16..24, 24..32
/// and 32..40 of its mix. The same box always gets the same colour.
pub fn box_color_bytes(id: BoxId) -> (r: (u8, u8, u8))
    ensures
        r.0 == ((box_mix(id) >> 16u64) & 0xFFu64),
        r.1 == ((box_mix(id) >> 24u64) & 0xFFu64),
        r.2 == ((box_mix(id) >> 32u64) & 0xFFu64),
{
    let start: u64 = id as u64 + 1;
    let mut value = start.wrapping_mul(0x9E37_79B9_7F4A_7C15u64);
    value = value ^ (value >> 33u64);
    value = value.wrapping_mul(0xC2B2_AE35_0A97_0A4Du64);
    value = value ^ (value >> 29u64);
    value = value.wrapping_mul(0x1656_67B1_9E37_9B97u64);
    let r64 = (value >> 16u64) & 0xFFu64;
    let g64 = (value >> 24u64) & 0xFFu64;
    let b64 = (value >> 32u64) & 0xFFu64;
    assert(r64 <= 0xFF && g64 <= 0xFF && b64 <= 0xFF) by (bit_vector)
        requires
            r64 == (value >> 16u64) & 0xFFu64,
            g64 == (value >> 24u64) & 0xFFu64,
            b64 == (value >> 32u64) & 0xFFu64,
    ;
    (r64 as u8, g64 as u8, b64 as u8)
}

// ---------------------------------------------------------------------------
// Sorting identifiers
// ---------------------------------------------------------------------------

/// `s` is in non-decreasing order.
pub open spec fn sorted_ids(s: Seq<u32>) -> bool {
    forall|i: int, j: int| 0 <= i < j < s.len() ==> s[i] <= s[j]
}

/// Inserts `x` into the non-decreasing `v`, keeping it non-decreasing.
pub fn insert_id_sorted(v: &mut Vec<u32>, x: u32)
    requires
        sorted_ids(old(v)@),
    ensures
        sorted_ids(final(v)@),
        final(v)@.to_multiset() == old(v)@.to_multiset().insert(x),
{
    let mut p: usize = 0;
    while p < v.len() && v[p] <= x
        invariant
            p <= v@.len(),
            v@ == old(v)@,
            forall|q: int| 0 <= q < p ==> v@[q] <= x,
        decreases v.len() - p,
    {
        p = p + 1;
    }
    let ghost before = v@;
    v.insert(p, x);
    proof {
        vstd::seq_lib::to_multiset_insert(before, p as int, x);
        assert forall|i: int, j: int| 0 <= i < j < v@.len() implies v@[i] <= v@[j] by {
            if j < p {
                assert(v@[i] == before[i] && v@[j] == before[j]);
            } else if j == p {
                assert(v@[i] == before[i]);
            } else if i < p {
                assert(v@[i] == before[i] && v@[j] == before[j - 1]);
            } else if i == p {
                assert(v@[j] == before[j - 1]);
            } else {
                assert(v@[i] == before[i - 1] && v@[j] == before[j - 1]);
            }
        }
    }
}

/// The identifiers of `v` in non-decreasing order.
pub fn sort_ids(v: &Vec<u32>) -> (r: Vec<u32>)
    ensures
        sorted_ids(r@),
        r@.to_multiset() == v@.to_multiset(),
{
    let mut out: Vec<u32> = Vec::new();
    let mut i: usize = 0;
    while i < v.len()
        invariant
            i <= v@.len(),
            sorted_ids(out@),
            out@.to_multiset() == v@.take(i as int).to_multiset(),
        decreases v.len() - i,
    {
        insert_id_sorted(&mut out, v[i]);
        proof {
            assert(v@.take(i + 1) =~= v@.take(i as int).push(v@[i as int]));
        }
        i = i + 1;
    }
    assert(v@.take(v@.len() as int) =~= v@);
    out
}

// ---------------------------------------------------------------------------
// Adjacency
// ---------------------------------------------------------------------------

/// The targets of the edges leaving `u`, each once, in increasing order.
pub fn successors(edges: &Vec<GraphEdge>, u: StateId) -> (r: Vec<StateId>)
    ensures
        forall|i: int, j: int| 0 <= i < j < r@.len() ==> r@[i] < r@[j],
        forall|t: StateId| #[trigger] r@.contains(t) <==> exists|k: int| 0 <= k < edges@.len() && (#[trigger] edges@[k]).from == u && edges@[k].to == t,
{
    let mut targets: Vec<StateId> = Vec::new();
    let mut k: usize = 0;
    while k < edges.len()
        invariant
            k <= edges@.len(),
            targets@.no_duplicates(),
            forall|t: StateId| #[trigger] targets@.contains(t) <==> exists|m: int| 0 <= m < k && (#[trigger] edges@[m]).from == u && edges@[m].to == t,
        decreases edges.len() - k,
    {
        if edges[k].from == u {
            let t = edges[k].to;
            let ghost before = targets@;
            crate::sets::insert_id(&mut targets, t);
            proof {
                assert forall|x: StateId| #[trigger] targets@.contains(x) <==> exists|m: int| 0 <= m < k + 1 && (#[trigger] edges@[m]).from == u && edges@[m].to == x by {
                    assert(targets@.to_set().contains(x) == targets@.contains(x));
                    assert(before.to_set().contains(x) == before.contains(x));
                    if x == t {
                        assert(edges@[k as int].from == u && edges@[k as int].to == x);
                    }
                    if exists|m: int| 0 <= m < k + 1 && (#[trigger] edges@[m]).from == u && edges@[m].to == x {
                        let m = choose|m: int| 0 <= m < k + 1 && (#[trigger] edges@[m]).from == u && edges@[m].to == x;
                        if m < k {
                            assert(before.contains(x));
                        }
                    }
                }
            }
        } else {
            proof {
                assert forall|x: StateId| #[trigger] targets@.contains(x) <==> exists|m: int| 0 <= m < k + 1 && (#[trigger] edges@[m]).from == u && edges@[m].to == x by {
                    if exists|m: int| 0 <= m < k + 1 && (#[trigger] edges@[m]).from == u && edges@[m].to == x {
                        let m = choose|m: int| 0 <= m < k + 1 && (#[trigger] edges@[m]).from == u && edges@[m].to == x;
                        assert(m < k);
                    }
                }
            }
        }
        k = k + 1;
    }
    let sorted = sort_ids(&targets);
    proof {
        assert forall|t: StateId| #[trigger] sorted@.contains(t) <==> targets@.contains(t) by {
            assert(sorted@.to_multiset().count(t) == targets@.to_multiset().count(t));
        }
        assert forall|i: int, j: int| 0 <= i < j < sorted@.len() implies sorted@[i] < sorted@[j] by {
            if sorted@[i] == sorted@[j] {
                let x = sorted@[i];
                assert(sorted@.to_multiset().count(x) >= 2) by {
                    lemma_count_two(sorted@, i, j);
                }
                targets@.lemma_multiset_has_no_duplicates();
                assert(targets@.to_multiset().count(x) <= 1);
            }
        }
    }
    sorted
}

proof fn lemma_count_two(s: Seq<u32>, i: int, j: int)
    requires
        0 <= i < j < s.len(),
        s[i] == s[j],
    ensures
        s.to_multiset().count(s[i]) >= 2,
{
    let x = s[i];
    let t = s.remove(j);
    vstd::seq_lib::to_multiset_remove(s, j);
    assert(t[i] == x);
    assert(t.to_multiset().contains(x));
    assert(t.to_multiset().count(x) >= 1);
}

// ---------------------------------------------------------------------------
// Bounding-box hierarchy
// ---------------------------------------------------------------------------

/// `k` is the last position of a box with identifier `id`; later duplicates
/// of an identifier replace earlier ones.
pub open spec fn is_last_box(boxes: Seq<GraphBox>, k: int, id: BoxId) -> bool {
    &&& 0 <= k < boxes.len()
    &&& boxes[k].id == id
    &&& forall|m: int| k < m < boxes.len() ==> (#[trigger] boxes[m]).id != id
}

/// The parent recorded for `id` (by the last box with that identifier).
pub open spec fn parent_of(boxes: Seq<GraphBox>, id: BoxId) -> Option<BoxId> {
    if exists|k: int| #[trigger] is_last_box(boxes, k, id) {
        boxes[choose|k: int| #[trigger] is_last_box(boxes, k, id)].parent
    } else {
        None
    }
}

/// `id` names a box whose (last) record has no parent.
pub open spec fn is_root(boxes: Seq<GraphBox>, id: BoxId) -> bool {
    exists|k: int| #[trigger] is_last_box(boxes, k, id) && boxes[k].parent is None
}

/// The identifiers of the boxes whose parent is `id`, in list order.
pub open spec fn child_ids(boxes: Seq<GraphBox>, id: BoxId) -> Seq<BoxId>
    decreases boxes.len(),
{
    if boxes.len() == 0 {
        Seq::empty()
    } else {
        let prev = child_ids(boxes.drop_last(), id);
        if boxes.last().parent == Some(id) {
            prev.push(boxes.last().id)
        } else {
            prev
        }
    }
}

fn last_box_index(boxes: &Vec<GraphBox>, id: BoxId) -> (r: Option<usize>)
    ensures
        r matches Some(k) ==> is_last_box(boxes@, k as int, id),
        r is None ==> forall|k: int| 0 <= k < boxes@.len() ==> (#[trigger] boxes@[k]).id != id,
{
    let mut k: usize = boxes.len();
    while k > 0
        invariant
            k <= boxes@.len(),
            forall|m: int| k <= m < boxes@.len() ==> (#[trigger] boxes@[m]).id != id,
        decreases k,
    {
        k = k - 1;
        if boxes[k].id == id {
            return Some(k);
        }
    }
    None
}

proof fn lemma_last_box_unique(boxes: Seq<GraphBox>, k: int, j: int, id: BoxId)
    requires
        is_last_box(boxes, k, id),
        is_last_box(boxes, j, id),
    ensures
        k == j,
{
    if k < j {
        assert(boxes[j].id != id);
    } else if j < k {
        assert(boxes[k].id != id);
    }
}

/// The parent recorded for box `id`, if the box exists and has one.
pub fn box_parent(boxes: &Vec<GraphBox>, id: BoxId) -> (r: Option<BoxId>)
    ensures
        r == parent_of(boxes@, id),
{
    match last_box_index(boxes, id) {
        Some(k) => {
            proof {
                let j = choose|j: int| #[trigger] is_last_box(boxes@, j, id);
                lemma_last_box_unique(boxes@, j, k as int, id);
            }
            boxes[k].parent
        },
        None => None,
    }
}

/// Identifiers of the root boxes, each once, in increasing order.
pub fn box_roots(boxes: &Vec<GraphBox>) -> (r: Vec<BoxId>)
    ensures
        forall|i: int, j: int| 0 <= i < j < r@.len() ==> r@[i] < r@[j],
        forall|id: BoxId| #[trigger] r@.contains(id) <==> is_root(boxes@, id),
{
    let mut ids: Vec<BoxId> = Vec::new();
    let mut k: usize = 0;
    while k < boxes.len()
        invariant
            k <= boxes@.len(),
            ids@.no_duplicates(),
            forall|id: BoxId| #[trigger] ids@.contains(id) ==> is_root(boxes@, id),
            forall|m: int| 0 <= m < k && is_last_box(boxes@, m, (#[trigger] boxes@[m]).id) && boxes@[m].parent is None
                ==> ids@.contains(boxes@[m].id),
        decreases boxes.len() - k,
    {
        let id = boxes[k].id;
        if boxes[k].parent.is_none() {
            match last_box_index(boxes, id) {
                Some(j) => {
                    if j == k {
                        let ghost before = ids@;
                        crate::sets::insert_id(&mut ids, id);
                        proof {
                            assert(is_last_box(boxes@, k as int, id));
                            assert forall|x: BoxId| #[trigger] ids@.contains(x) implies is_root(boxes@, x) by {
                                assert(ids@.to_set().contains(x));
                                if x != id {
                                    assert(before.to_set().contains(x));
                                }
                            }
                            assert forall|m: int| 0 <= m < k + 1 && is_last_box(boxes@, m, (#[trigger] boxes@[m]).id)
                                && boxes@[m].parent is None implies ids@.contains(boxes@[m].id) by {
                                if m < k {
                                    assert(before.contains(boxes@[m].id));
                                    assert(before.to_set().contains(boxes@[m].id));
                                }
                                assert(ids@.to_set().contains(boxes@[m].id));
                            }
                        }
                    } else {
                        proof {
                            assert forall|m: int| 0 <= m < k + 1 && is_last_box(boxes@, m, (#[trigger] boxes@[m]).id)
                                && boxes@[m].parent is None implies ids@.contains(boxes@[m].id) by {
                                if m == k {
                                    lemma_last_box_unique(boxes@, j as int, k as int, id);
                                }
                            }
                        }
                    }
                },
                None => {},
            }
        }
        k = k + 1;
    }
    let sorted = sort_ids(&ids);
    proof {
        assert forall|t: BoxId| #[trigger] sorted@.contains(t) <==> ids@.contains(t) by {
            assert(sorted@.to_multiset().count(t) == ids@.to_multiset().count(t));
        }
        assert forall|id: BoxId| #[trigger] sorted@.contains(id) <==> is_root(boxes@, id) by {
            if is_root(boxes@, id) {
                let m = choose|m: int| #[trigger] is_last_box(boxes@, m, id) && boxes@[m].parent is None;
                assert(ids@.contains(boxes@[m].id));
            }
        }
        assert forall|i: int, j: int| 0 <= i < j < sorted@.len() implies sorted@[i] < sorted@[j] by {
            if sorted@[i] == sorted@[j] {
                lemma_count_two(sorted@, i, j);
                ids@.lemma_multiset_has_no_duplicates();
            }
        }
    }
    sorted
}

/// Identifiers of the children of box `id`, in non-decreasing order, as
/// many times as the list records them.
pub fn box_children(boxes: &Vec<GraphBox>, id: BoxId) -> (r: Vec<BoxId>)
    ensures
        sorted_ids(r@),
        r@.to_multiset() == child_ids(boxes@, id).to_multiset(),
{
    let mut ids: Vec<BoxId> = Vec::new();
    let mut k: usize = 0;
    while k < boxes.len()
        invariant
            k <= boxes@.len(),
            ids@ == child_ids(boxes@.take(k as int), id),
        decreases boxes.len() - k,
    {
        assert(boxes@.take(k + 1).drop_last() =~= boxes@.take(k as int));
        if boxes[k].parent == Some(id) {
            ids.push(boxes[k].id);
        }
        k = k + 1;
    }
    assert(boxes@.take(boxes@.len() as int) =~= boxes@);
    sort_ids(&ids)
}

/// Number of parent links from box `id` up to a box without a recorded
/// parent, when that takes fewer than `fuel` links.
pub open spec fn chain_depth(boxes: Seq<GraphBox>, id: BoxId, fuel: nat) -> Option<nat>
    decreases fuel,
{
    if fuel == 0 {
        None
    } else {
        match parent_of(boxes, id) {
            None => Some(0),
            Some(p) => match chain_depth(boxes, p, (fuel - 1) as nat) {
                None => None,
                Some(d) => Some(d + 1),
            },
        }
    }
}

/// Whether the parent links from box `id` reach a box without a recorded
/// parent within `fuel` links.
fn chain_ends(boxes: &Vec<GraphBox>, id: BoxId, fuel: usize) -> (r: bool)
    ensures
        r == chain_depth(boxes@, id, fuel as nat) is Some,
{
    let mut cur = id;
    let mut f = fuel;
    loop
        invariant
            f <= fuel,
            (chain_depth(boxes@, id, fuel as nat) is Some) == (chain_depth(boxes@, cur, f as nat) is Some),
        decreases f,
    {
        if f == 0 {
            return false;
        }
        match box_parent(boxes, cur) {
            None => {
                return true;
            },
            Some(p) => {
                cur = p;
                f = f - 1;
            },
        }
    }
}

/// Whether no chain of parent links starting at a listed box runs in a cycle.
pub fn hierarchy_is_acyclic(boxes: &Vec<GraphBox>) -> (r: bool)
    ensures
        r == hierarchy_acyclic(boxes@),
{
    let n = boxes.len();
    let mut k: usize = 0;
    while k < n
        invariant
            k <= n,
            n == boxes@.len(),
            forall|j: int| 0 <= j < k ==> (#[trigger] chain_depth(boxes@, boxes@[j].id, (n + 1) as nat)) is Some,
        decreases n - k,
    {
        let id = boxes[k].id;
        let ok = match box_parent(boxes, id) {
            None => true,
            Some(p) => chain_ends(boxes, p, n),
        };
        assert(ok == chain_depth(boxes@, id, (n + 1) as nat) is Some);
        if !ok {
            return false;
        }
        k = k + 1;
    }
    true
}

/// Depth of box `id` in the hierarchy: 0 for a root (or an unknown box),
/// one more than its parent otherwise. The parent links must not cycle.
pub fn box_depth(boxes: &Vec<GraphBox>, id: BoxId) -> (r: usize)
    requires
        chain_depth(boxes@, id, (boxes@.len() + 1) as nat) is Some,
    ensures
        r as nat == chain_depth(boxes@, id, (boxes@.len() + 1) as nat)->0,
{
    let ghost fuel0 = (boxes@.len() + 1) as nat;
    let mut cur = id;
    let mut depth: usize = 0;
    let count: usize = boxes.len();
    loop
        invariant
            depth <= boxes@.len(),
            count == boxes@.len(),
            chain_depth(boxes@, cur, (fuel0 - depth) as nat) is Some,
            chain_depth(boxes@, id, fuel0)->0 == depth + chain_depth(boxes@, cur, (fuel0 - depth) as nat)->0,
            fuel0 == boxes@.len() + 1,
        decreases fuel0 - depth,
    {
        match box_parent(boxes, cur) {
            None => {
                return depth;
            },
            Some(p) => {
                proof {
                    reveal_with_fuel(chain_depth, 2);
                }
                cur = p;
                depth = depth + 1;
            },
        }
    }
}

// ---------------------------------------------------------------------------
// Drawing order of boxes
// ---------------------------------------------------------------------------

/// Depth of box `id`: the number of parent links up to a root.
pub open spec fn depth_of(boxes: Seq<GraphBox>, id: BoxId) -> nat {
    chain_depth(boxes, id, (boxes.len() + 1) as nat)->0
}

/// No chain of parent links starting at a listed box runs in a cycle.
pub open spec fn hierarchy_acyclic(boxes: Seq<GraphBox>) -> bool {
    forall|k: int| 0 <= k < boxes.len() ==> (#[trigger] chain_depth(boxes, boxes[k].id, (boxes.len() + 1) as nat)) is Some
}

/// Drawing order on (depth, identifier) keys: deeper first, then smaller identifier.
pub open spec fn key_before(a: (nat, BoxId), b: (nat, BoxId)) -> bool {
    a.0 > b.0 || (a.0 == b.0 && a.1 < b.1)
}

/// Box `a` is drawn before box `b`.
pub open spec fn drawn_before(boxes: Seq<GraphBox>, a: BoxId, b: BoxId) -> bool {
    key_before((depth_of(boxes, a), a), (depth_of(boxes, b), b))
}

/// Box `id` exists and its kind is shown.
pub open spec fn is_drawn(boxes: Seq<GraphBox>, visibility: BoxVisibility, id: BoxId) -> bool {
    exists|k: int| #[trigger] is_last_box(boxes, k, id) && visibility.shows(boxes[k].kind)
}

proof fn lemma_chain_more_fuel(boxes: Seq<GraphBox>, id: BoxId, fuel: nat)
    requires
        chain_depth(boxes, id, fuel) is Some,
    ensures
        chain_depth(boxes, id, fuel + 1) == chain_depth(boxes, id, fuel),
    decreases fuel,
{
    match parent_of(boxes, id) {
        None => {},
        Some(p) => {
            lemma_chain_more_fuel(boxes, p, (fuel - 1) as nat);
            assert(((fuel + 1) - 1) as nat == ((fuel - 1) as nat + 1) as nat);
        },
    }
}

/// Law: a box is drawn before its parent box, so nested boxes are painted
/// first and stay visible inside the boxes that contain them.
pub proof fn lemma_child_drawn_before_parent(boxes: Seq<GraphBox>, k: int, p: BoxId)
    requires
        hierarchy_acyclic(boxes),
        0 <= k < boxes.len(),
        parent_of(boxes, boxes[k].id) == Some(p),
    ensures
        drawn_before(boxes, boxes[k].id, p),
{
    let c = boxes[k].id;
    let f = (boxes.len() + 1) as nat;
    assert(chain_depth(boxes, c, f) is Some);
    assert(chain_depth(boxes, c, f) == match chain_depth(boxes, p, (f - 1) as nat) {
        None => None,
        Some(d) => Some(d + 1),
    });
    lemma_chain_more_fuel(boxes, p, (f - 1) as nat);
    assert(((f - 1) as nat + 1) as nat == f);
}

fn key_precedes(a: (usize, BoxId), b: (usize, BoxId)) -> (r: bool)
    ensures
        r == key_before((a.0 as nat, a.1), (b.0 as nat, b.1)),
{
    a.0 > b.0 || (a.0 == b.0 && a.1 < b.1)
}

/// Box `id` is drawn by a record among the first `k`.
spec fn drawn_within(boxes: Seq<GraphBox>, visibility: BoxVisibility, id: BoxId, k: int) -> bool {
    exists|m: int| 0 <= m < k && #[trigger] is_last_box(boxes, m, id) && visibility.shows(boxes[m].kind)
}

/// Each key carries the depth of its box, and the keys are in drawing order.
spec fn keys_ordered(boxes: Seq<GraphBox>, keys: Seq<(usize, BoxId)>) -> bool {
    &&& forall|i: int| 0 <= i < keys.len() ==> (#[trigger] keys[i]).0 as nat == depth_of(boxes, keys[i].1)
    &&& forall|i: int, j: int| 0 <= i < j < keys.len()
        ==> key_before((keys[i].0 as nat, keys[i].1), (keys[j].0 as nat, keys[j].1))
}

/// The keys name exactly the boxes drawn by the first `k` records.
spec fn keys_cover(boxes: Seq<GraphBox>, visibility: BoxVisibility, keys: Seq<(usize, BoxId)>, k: int) -> bool {
    &&& forall|i: int| 0 <= i < keys.len() ==> drawn_within(boxes, visibility, (#[trigger] keys[i]).1, k)
    &&& forall|m: int| 0 <= m < k && #[trigger] is_last_box(boxes, m, boxes[m].id) && visibility.shows(boxes[m].kind)
        ==> exists|i: int| 0 <= i < keys.len() && (#[trigger] keys[i]).1 == boxes[m].id
}

proof fn lemma_cover_skip(boxes: Seq<GraphBox>, visibility: BoxVisibility, keys: Seq<(usize, BoxId)>, k: int)
    requires
        0 <= k < boxes.len(),
        keys_cover(boxes, visibility, keys, k),
        !(is_last_box(boxes, k, boxes[k].id) && visibility.shows(boxes[k].kind)),
    ensures
        keys_cover(boxes, visibility, keys, k + 1),
{
    assert forall|i: int| 0 <= i < keys.len() implies drawn_within(boxes, visibility, (#[trigger] keys[i]).1, k + 1) by {
        assert(drawn_within(boxes, visibility, keys[i].1, k));
        let m = choose|m: int| 0 <= m < k && #[trigger] is_last_box(boxes, m, keys[i].1) && visibility.shows(boxes[m].kind);
        assert(0 <= m < k + 1 && is_last_box(boxes, m, keys[i].1) && visibility.shows(boxes[m].kind));
    }
}

/// The boxes to draw, deepest first and, at equal depth, by increasing
/// identifier, so that nested boxes are painted beneath their parents.
/// Each identifier appears once; a later record of an identifier replaces
/// an earlier one, and boxes of hidden kinds are left out.
pub fn drawing_order(boxes: &Vec<GraphBox>, visibility: &BoxVisibility) -> (r: Vec<BoxId>)
    requires
        hierarchy_acyclic(boxes@),
    ensures
        forall|i: int, j: int| 0 <= i < j < r@.len() ==> drawn_before(boxes@, r@[i], r@[j]),
        forall|id: BoxId| #[trigger] r@.contains(id) <==> is_drawn(boxes@, *visibility, id),
{
    let mut keys: Vec<(usize, BoxId)> = Vec::new();
    let mut k: usize = 0;
    while k < boxes.len()
        invariant
            k <= boxes@.len(),
            hierarchy_acyclic(boxes@),
            keys_ordered(boxes@, keys@),
            keys_cover(boxes@, *visibility, keys@, k as int),
        decreases boxes.len() - k,
    {
        let id = boxes[k].id;
        let shown = visibility.is_visible(boxes[k].kind);
        let last = last_box_index(boxes, id);
        if shown && last == Some(k) {
            assert(chain_depth(boxes@, boxes@[k as int].id, (boxes@.len() + 1) as nat) is Some);
            let d = box_depth(boxes, id);
            insert_key(&mut keys, d, id, Ghost(boxes@), Ghost(k as int), Ghost(*visibility));
        } else {
            proof {
                if is_last_box(boxes@, k as int, id) {
                    match last {
                        Some(j) => lemma_last_box_unique(boxes@, j as int, k as int, id),
                        None => assert(boxes@[k as int].id == id),
                    }
                }
                lemma_cover_skip(boxes@, *visibility, keys@, k as int);
            }
        }
        k = k + 1;
    }
    let mut out: Vec<BoxId> = Vec::new();
    let mut i: usize = 0;
    while i < keys.len()
        invariant
            i <= keys@.len(),
            out@.len() == i,
            forall|q: int| 0 <= q < i ==> out@[q] == (#[trigger] keys@[q]).1,
        decreases keys.len() - i,
    {
        out.push(keys[i].1);
        i = i + 1;
    }
    proof {
        assert forall|a: int, b: int| 0 <= a < b < out@.len() implies drawn_before(boxes@, out@[a], out@[b]) by {
            assert(out@[a] == keys@[a].1 && out@[b] == keys@[b].1);
            assert(keys@[a].0 as nat == depth_of(boxes@, keys@[a].1));
            assert(keys@[b].0 as nat == depth_of(boxes@, keys@[b].1));
        }
        assert forall|id: BoxId| #[trigger] out@.contains(id) <==> is_drawn(boxes@, *visibility, id) by {
            if out@.contains(id) {
                let q = choose|q: int| 0 <= q < out@.len() && out@[q] == id;
                assert(keys@[q].1 == id);
                assert(drawn_within(boxes@, *visibility, keys@[q].1, k as int));
            }
            if is_drawn(boxes@, *visibility, id) {
                let m = choose|m: int| #[trigger] is_last_box(boxes@, m, id) && visibility.shows(boxes@[m].kind);
                assert(boxes@[m].id == id);
                let q = choose|q: int| 0 <= q < keys@.len() && (#[trigger] keys@[q]).1 == boxes@[m].id;
                assert(out@[q] == id);
            }
        }
    }
    out
}

/// Inserts the key of box `boxes[k]` into the ordered key list.
fn insert_key(
    keys: &mut Vec<(usize, BoxId)>,
    d: usize,
    id: BoxId,
    Ghost(boxes): Ghost<Seq<GraphBox>>,
    Ghost(k): Ghost<int>,
    Ghost(visibility): Ghost<BoxVisibility>,
)
    requires
        is_last_box(boxes, k, id),
        visibility.shows(boxes[k].kind),
        d as nat == depth_of(boxes, id),
        keys_ordered(boxes, old(keys)@),
        keys_cover(boxes, visibility, old(keys)@, k),
    ensures
        keys_ordered(boxes, final(keys)@),
        keys_cover(boxes, visibility, final(keys)@, k + 1),
{
    let ghost before = keys@;
    let mut p: usize = 0;
    while p < keys.len() && key_precedes(keys[p], (d, id))
        invariant
            p <= keys@.len(),
            keys@ == before,
            forall|q: int| 0 <= q < p ==> key_before((keys@[q].0 as nat, keys@[q].1), (d as nat, id)),
        decreases keys.len() - p,
    {
        p = p + 1;
    }
    proof {
        // Every identifier present was recorded last below k, so `id` is new.
        assert forall|i: int| 0 <= i < before.len() implies (#[trigger] before[i]).1 != id by {
            assert(drawn_within(boxes, visibility, before[i].1, k));
            let m = choose|m: int| 0 <= m < k && #[trigger] is_last_box(boxes, m, before[i].1) && visibility.shows(boxes[m].kind);
            if before[i].1 == id {
                lemma_last_box_unique(boxes, m, k, id);
            }
        }
    }
    keys.insert(p, (d, id));
    proof {
        let after = keys@;
        assert(after[p as int] == (d, id));
        assert forall|i: int| 0 <= i < after.len() implies (#[trigger] after[i]).0 as nat == depth_of(boxes, after[i].1) by {
            if i < p {
                assert(after[i] == before[i]);
            } else if i > p {
                assert(after[i] == before[i - 1]);
            }
        }
        if p < before.len() {
            assert(!key_before((before[p as int].0 as nat, before[p as int].1), (d as nat, id)));
            assert(before[p as int].1 != id);
        }
        assert forall|i: int, j: int| 0 <= i < j < after.len()
            implies key_before((after[i].0 as nat, after[i].1), (after[j].0 as nat, after[j].1)) by {
            if j < p {
                assert(after[i] == before[i] && after[j] == before[j]);
            } else if j == p {
                assert(after[i] == before[i]);
            } else if i < p {
                assert(after[i] == before[i] && after[j] == before[j - 1]);
            } else if i == p {
                assert(after[j] == before[j - 1]);
                if j - 1 > p {
                    assert(key_before((before[p as int].0 as nat, before[p as int].1), (before[j - 1].0 as nat, before[j - 1].1)));
                }
            } else {
                assert(after[i] == before[i - 1] && after[j] == before[j - 1]);
            }
        }
        assert forall|i: int| 0 <= i < after.len() implies drawn_within(boxes, visibility, (#[trigger] after[i]).1, k + 1) by {
            if i == p {
                assert(0 <= k < k + 1 && is_last_box(boxes, k, after[i].1) && visibility.shows(boxes[k].kind));
            } else {
                let b = if i < p { i } else { i - 1 };
                assert(after[i] == before[b]);
                assert(drawn_within(boxes, visibility, before[b].1, k));
                let m = choose|m: int| 0 <= m < k && #[trigger] is_last_box(boxes, m, before[b].1) && visibility.shows(boxes[m].kind);
                assert(0 <= m < k + 1 && is_last_box(boxes, m, after[i].1) && visibility.shows(boxes[m].kind));
            }
        }
        assert forall|m: int| 0 <= m < k + 1 && #[trigger] is_last_box(boxes, m, boxes[m].id) && visibility.shows(boxes[m].kind)
            implies exists|i: int| 0 <= i < after.len() && (#[trigger] after[i]).1 == boxes[m].id by {
            if m == k {
                assert(after[p as int].1 == boxes[m].id);
            } else {
                let i = choose|i: int| 0 <= i < before.len() && (#[trigger] before[i]).1 == boxes[m].id;
                if i < p {
                    assert(after[i] == before[i]);
                } else {
                    assert(after[i + 1] == before[i]);
                }
            }
        }
    }
}

// ---------------------------------------------------------------------------
// States outside every box
// ---------------------------------------------------------------------------

/// The states of `ids` that are not in `placed`, each once, in order of first occurrence.
pub open spec fn unplaced(ids: Seq<StateId>, placed: Seq<StateId>) -> Seq<StateId>
    decreases ids.len(),
{
    if ids.len() == 0 {
        Seq::empty()
    } else {
        let prev = unplaced(ids.drop_last(), placed);
        let x = ids.last();
        if placed.contains(x) || prev.contains(x) {
            prev
        } else {
            prev.push(x)
        }
    }
}

/// The states of the nodes that no box layout placed, in the order in which
/// they are lined up after the boxes: each once, in order of first occurrence.
pub fn unplaced_states<P>(nodes: &Vec<crate::graph::GraphNode<P>>, placed: &Vec<StateId>) -> (r: Vec<StateId>)
    ensures
        r@ == unplaced(crate::dfa_layout::node_ids(nodes@), placed@),
{
    let ghost ids = crate::dfa_layout::node_ids(nodes@);
    let mut out: Vec<StateId> = Vec::new();
    let mut i: usize = 0;
    while i < nodes.len()
        invariant
            i <= nodes@.len(),
            ids == crate::dfa_layout::node_ids(nodes@),
            out@ == unplaced(ids.take(i as int), placed@),
        decreases nodes.len() - i,
    {
        assert(ids.take(i + 1).drop_last() =~= ids.take(i as int));
        assert(ids.take(i + 1).last() == nodes@[i as int].id);
        let x = nodes[i].id;
        if !crate::sets::contains_id(placed, x) && !crate::sets::contains_id(&out, x) {
            out.push(x);
        }
        i = i + 1;
    }
    assert(ids.take(nodes@.len() as int) =~= ids);
    out
}

// ---------------------------------------------------------------------------
// Layout strategies
// ---------------------------------------------------------------------------

/// Layout of Thompson NFAs, grouped by the bounding boxes of the regex.
#[derive(Debug, Clone, Copy, Default)]
pub struct NfaLayoutStrategy;

/// Layered layout of DFAs: one column per breadth-first level.
#[derive(Debug, Clone, Copy, Default)]
pub struct DfaLayoutStrategy;

/// Top-down layout of parse trees: one row per depth.
#[derive(Debug, Clone, Copy, Default)]
pub struct TreeLayoutStrategy;

impl NfaLayoutStrategy {
    /// The boxes to draw, in drawing order (see [`drawing_order`]).
    pub fn box_order(&self, boxes: &Vec<GraphBox>, visibility: &BoxVisibility) -> (r: Vec<BoxId>)
        requires
            hierarchy_acyclic(boxes@),
        ensures
            forall|i: int, j: int| 0 <= i < j < r@.len() ==> drawn_before(boxes@, r@[i], r@[j]),
            forall|id: BoxId| #[trigger] r@.contains(id) <==> is_drawn(boxes@, *visibility, id),
    {
        drawing_order(boxes, visibility)
    }
}

impl DfaLayoutStrategy {
    /// The columns of the drawing, left to right: each level that some node
    /// has, with the states of the nodes at that level in increasing order.
    pub fn columns<P>(&self, nodes: &Vec<crate::graph::GraphNode<P>>, edges: &Vec<GraphEdge>) -> (r: Vec<(usize, Vec<StateId>)>)
        ensures
            forall|a: int, b: int| 0 <= a < b < r@.len() ==> r@[a].0 < r@[b].0,
            forall|c: int| 0 <= c < r@.len() ==> {
                &&& (#[trigger] r@[c]).1@.len() > 0
                &&& sorted_ids(r@[c].1@)
                &&& r@[c].1@.to_multiset() == crate::dfa_layout::layer_of(
                    crate::dfa_layout::node_ids(nodes@),
                    crate::dfa_layout::layer_levels(nodes@, edges@),
                    r@[c].0 as nat,
                ).to_multiset()
            },
            forall|i: int| 0 <= i < nodes@.len() ==> crate::dfa_layout::has_column(
                r@,
                crate::dfa_layout::node_level(crate::dfa_layout::layer_levels(nodes@, edges@), #[trigger] nodes@[i].id),
            ),
    {
        let levels = crate::dfa_layout::assign_levels(nodes, edges);
        crate::dfa_layout::layer_columns(nodes, &levels)
    }
}

impl TreeLayoutStrategy {
    /// The depth of each reached state (see [`crate::tree_layout::assign_depths`]) and,
    /// for each node, its depth, its position among the nodes of that depth
    /// and the number of such nodes.
    pub fn rows<P>(&self, nodes: &Vec<crate::graph::GraphNode<P>>, edges: &Vec<GraphEdge>) -> (r: (Vec<(StateId, usize)>, Vec<(usize, usize, usize)>))
        ensures
            nodes@.len() == 0 ==> r.0@.len() == 0,
            nodes@.len() > 0 ==> {
                let root = crate::tree_layout::tree_root(crate::dfa_layout::node_ids(nodes@), edges@);
                &&& r.0@.len() > 0
                &&& r.0@[0] == (root, 0usize)
                &&& crate::dfa_layout::level_map(r.0@) == crate::dfa_layout::bfs_levels(edges@, Set::empty(), root, 0)
            },
            crate::dfa_layout::entry_ids(r.0@).no_duplicates(),
            r.1@.len() == nodes@.len(),
            forall|i: int| 0 <= i < r.1@.len() ==> {
                let m = crate::dfa_layout::level_map(r.0@);
                let ids = crate::dfa_layout::node_ids(nodes@);
                &&& (#[trigger] r.1@[i]).0 as nat == crate::dfa_layout::node_level(m, nodes@[i].id)
                &&& r.1@[i].1 == crate::dfa_layout::layer_of(ids.take(i), m, r.1@[i].0 as nat).len()
                &&& r.1@[i].2 == crate::dfa_layout::layer_of(ids, m, r.1@[i].0 as nat).len()
            },
    {
        let depths = crate::tree_layout::assign_depths(nodes, edges);
        let rows = crate::tree_layout::tree_rows(nodes, &depths);
        (depths, rows)
    }
}

} // verus!
