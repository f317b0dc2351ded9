use vstd::prelude::*;

use crate::halfedge::HalfEdge;
use crate::utils::Handle;

verus! {

/// The index a present reference names; meaningless for an absent one.
pub open spec fn ref_index(r: Option<Handle>) -> int {
    r->Some_0.index as int
}

/// A present reference to slot `i`.
pub open spec fn some_handle(i: int) -> Option<Handle> {
    Some(Handle { index: i as usize })
}

/// The slot `j` next-steps along from `e`; meaningless where the walk dies.
pub open spec fn walk_at(edges: Seq<HalfEdge>, e: int, j: int) -> int {
    walk(edges, e, j as nat)->Some_0
}

/// The slot `j` fan-steps along from `e`; meaningless where the fan dies.
pub open spec fn fan_at(edges: Seq<HalfEdge>, e: int, j: int) -> int {
    fan_walk(edges, e, j as nat)->Some_0
}

/// Slot `i` lies on the first `d` steps of the facet loop from `e`.
pub open spec fn on_loop(edges: Seq<HalfEdge>, e: int, d: int, i: int) -> bool {
    exists|j: nat| j < d && #[trigger] walk(edges, e, j) == Option::<int>::Some(i)
}

/// Largest number of slots any one arena may hold.  Together with
/// `COORD_LIMIT` it keeps the traversal arithmetic inside `i64`.
pub const ELEM_LIMIT: usize = 0x10_0000;

/// An arena element that can be retired in place.
pub trait Alive {
    /// Whether the container still owns the element.
    spec fn is_live(self) -> bool;
}

/// Number of live entries among the first `n` slots of an arena.
pub open spec fn live_count<T: Alive>(s: Seq<T>, n: int) -> int
    decreases n,
{
    if n <= 0 {
        0
    } else {
        live_count(s, n - 1) + if s[n - 1].is_live() {
            1int
        } else {
            0int
        }
    }
}

/// The live count of a prefix is between zero and the prefix length.
pub proof fn lemma_live_count_bounds<T: Alive>(s: Seq<T>, n: int)
    ensures
        n >= 0 ==> 0 <= live_count(s, n) <= n,
        n < 0 ==> live_count(s, n) == 0,
    decreases n,
{
    if n > 0 {
        lemma_live_count_bounds(s, n - 1);
    }
}

/// Two arenas whose prefixes agree on liveness have the same live count
/// there.
pub proof fn lemma_live_count_agree<T: Alive>(s1: Seq<T>, s2: Seq<T>, n: int)
    requires
        forall|i: int| 0 <= i < n ==> (#[trigger] s1[i]).is_live() == s2[i].is_live(),
    ensures
        live_count(s1, n) == live_count(s2, n),
    decreases n,
{
    if n > 0 {
        lemma_live_count_agree(s1, s2, n - 1);
    }
}

/// Appending one element extends the live count by that element's liveness.
pub proof fn lemma_live_count_push<T: Alive>(s: Seq<T>, x: T)
    ensures
        live_count(s.push(x), s.len() as int + 1) == live_count(s, s.len() as int) + if x.is_live() {
            1int
        } else {
            0int
        },
{
    lemma_live_count_agree(s.push(x), s, s.len() as int);
}

/// Replacing one slot shifts the live count by the change in liveness.
pub proof fn lemma_live_count_update<T: Alive>(s: Seq<T>, n: int, i: int, x: T)
    requires
        0 <= i < n <= s.len(),
    ensures
        live_count(s.update(i, x), n) == live_count(s, n) - (if s[i].is_live() {
            1int
        } else {
            0int
        }) + (if x.is_live() {
            1int
        } else {
            0int
        }),
    decreases n,
{
    if i == n - 1 {
        lemma_live_count_agree(s.update(i, x), s, n - 1);
    } else {
        lemma_live_count_update(s, n - 1, i, x);
    }
}

/// A prefix of all-live slots counts its own length.
pub proof fn lemma_live_count_small<T: Alive>(s: Seq<T>, n: int)
    requires
        0 <= n <= s.len(),
        forall|i: int| 0 <= i < n ==> (#[trigger] s[i]).is_live(),
    ensures
        live_count(s, n) == n,
    decreases n,
{
    if n > 0 {
        lemma_live_count_small(s, n - 1);
    }
}

/// The index the `next` reference of slot `e` names, if present.
pub open spec fn next_index(edges: Seq<HalfEdge>, e: int) -> Option<int> {
    match edges[e].next {
        Option::Some(h) => Option::Some(h.index as int),
        Option::None => Option::None,
    }
}

/// The slot reached after `k` steps along `next`, if every step resolves.
pub open spec fn walk(edges: Seq<HalfEdge>, e: int, k: nat) -> Option<int>
    decreases k,
{
    if k == 0 {
        Option::Some(e)
    } else {
        match walk(edges, e, (k - 1) as nat) {
            Option::Some(j) => next_index(edges, j),
            Option::None => Option::None,
        }
    }
}

/// One fan step around a vertex: the twin of the next edge.
pub open spec fn fan_index(edges: Seq<HalfEdge>, e: int) -> Option<int> {
    match next_index(edges, e) {
        Option::Some(j) => match edges[j].opposite {
            Option::Some(h) => Option::Some(h.index as int),
            Option::None => Option::None,
        },
        Option::None => Option::None,
    }
}

/// The slot reached after `k` fan steps, if every step resolves.
pub open spec fn fan_walk(edges: Seq<HalfEdge>, e: int, k: nat) -> Option<int>
    decreases k,
{
    if k == 0 {
        Option::Some(e)
    } else {
        match fan_walk(edges, e, (k - 1) as nat) {
            Option::Some(j) => fan_index(edges, j),
            Option::None => Option::None,
        }
    }
}

/// `d` is the degree of the facet loop through `e`: following `next` returns
/// to `e` after exactly `d` steps and not before.
pub open spec fn is_loop(edges: Seq<HalfEdge>, e: int, d: int) -> bool {
    &&& 1 <= d
    &&& walk(edges, e, d as nat) == Option::<int>::Some(e)
    &&& forall|k: nat| 1 <= k < d ==> #[trigger] walk(edges, e, k) != Option::<int>::Some(e)
}

/// The facet loop through `e` closes within the arena size.
pub open spec fn has_loop(edges: Seq<HalfEdge>, e: int) -> bool {
    exists|d: int| 1 <= d <= edges.len() && #[trigger] is_loop(edges, e, d)
}

/// `d` is the degree of the vertex fan through `e`: alternating `next` and
/// `opposite` returns to `e` after exactly `d` steps and not before.
pub open spec fn is_fan_loop(edges: Seq<HalfEdge>, e: int, d: int) -> bool {
    &&& 1 <= d
    &&& fan_walk(edges, e, d as nat) == Option::<int>::Some(e)
    &&& forall|k: nat| 1 <= k < d ==> #[trigger] fan_walk(edges, e, k) != Option::<int>::Some(e)
}

/// The vertex fan through `e` closes within the arena size.
pub open spec fn has_fan_loop(edges: Seq<HalfEdge>, e: int) -> bool {
    exists|d: int| 1 <= d <= edges.len() && #[trigger] is_fan_loop(edges, e, d)
}

/// `k` is the fan distance from `e1` to `e2`: `e2` is reached after exactly
/// `k` fan steps from `e1` and not before.
pub open spec fn is_fan_path(edges: Seq<HalfEdge>, e1: int, e2: int, k: int) -> bool {
    &&& 1 <= k
    &&& fan_walk(edges, e1, k as nat) == Option::<int>::Some(e2)
    &&& forall|j: nat| 1 <= j < k ==> #[trigger] fan_walk(edges, e1, j) != Option::<int>::Some(e2)
}

/// `e2` is reached from `e1` by fan steps within the arena size.
pub open spec fn has_fan_path(edges: Seq<HalfEdge>, e1: int, e2: int) -> bool {
    exists|k: int| 1 <= k <= edges.len() && #[trigger] is_fan_path(edges, e1, e2, k)
}

/// Every `next` and `opposite` reference of the arena stays inside it.
pub open spec fn edges_closed(edges: Seq<HalfEdge>) -> bool {
    forall|i: int|
        #![trigger edges[i].next]
        #![trigger edges[i].opposite]
        0 <= i < edges.len() ==> {
            &&& (edges[i].next matches Option::Some(h) ==> h.index < edges.len())
            &&& (edges[i].opposite matches Option::Some(h) ==> h.index < edges.len())
        }
}

/// Splitting a walk: `j + k` steps reach what `k` steps reach from the stop
/// of the first `j` steps.
pub proof fn lemma_walk_add(edges: Seq<HalfEdge>, e: int, j: nat, k: nat)
    ensures
        walk(edges, e, j + k) == match walk(edges, e, j) {
            Option::Some(m) => walk(edges, m, k),
            Option::None => Option::<int>::None,
        },
    decreases k,
{
    if k > 0 {
        lemma_walk_add(edges, e, j, (k - 1) as nat);
    }
}

/// Splitting a fan walk, as for `lemma_walk_add`.
pub proof fn lemma_fan_walk_add(edges: Seq<HalfEdge>, e: int, j: nat, k: nat)
    ensures
        fan_walk(edges, e, j + k) == match fan_walk(edges, e, j) {
            Option::Some(m) => fan_walk(edges, m, k),
            Option::None => Option::<int>::None,
        },
    decreases k,
{
    if k > 0 {
        lemma_fan_walk_add(edges, e, j, (k - 1) as nat);
    }
}

/// In a closed arena, a walk that starts in bounds stays in bounds.
pub proof fn lemma_walk_in_bounds(edges: Seq<HalfEdge>, e: int, k: nat, j: int)
    requires
        edges_closed(edges),
        0 <= e < edges.len(),
        walk(edges, e, k) == Option::<int>::Some(j),
    ensures
        0 <= j < edges.len(),
    decreases k,
{
    if k > 0 {
        let m = walk(edges, e, (k - 1) as nat)->Some_0;
        lemma_walk_in_bounds(edges, e, (k - 1) as nat, m);
    }
}

/// In a closed arena, a fan walk that starts in bounds stays in bounds.
pub proof fn lemma_fan_walk_in_bounds(edges: Seq<HalfEdge>, e: int, k: nat, j: int)
    requires
        edges_closed(edges),
        0 <= e < edges.len(),
        fan_walk(edges, e, k) == Option::<int>::Some(j),
    ensures
        0 <= j < edges.len(),
    decreases k,
{
    if k > 0 {
        let m = fan_walk(edges, e, (k - 1) as nat)->Some_0;
        lemma_fan_walk_in_bounds(edges, e, (k - 1) as nat, m);
        let n = next_index(edges, m)->Some_0;
        assert(0 <= n < edges.len());
        assert(edges[n].opposite matches Option::Some(h) && h.index == j);
    }
}

/// Walks only read `next` fields: two closed arenas of one length whose
/// slots agree on `next` walk alike from an in-bounds start.
pub proof fn lemma_walk_frame(edges1: Seq<HalfEdge>, edges2: Seq<HalfEdge>, e: int, k: nat)
    requires
        edges_closed(edges1),
        edges1.len() == edges2.len(),
        forall|i: int| 0 <= i < edges1.len() ==> edges1[i].next == edges2[i].next,
        0 <= e < edges1.len(),
    ensures
        walk(edges1, e, k) == walk(edges2, e, k),
    decreases k,
{
    if k > 0 {
        lemma_walk_frame(edges1, edges2, e, (k - 1) as nat);
        if walk(edges1, e, (k - 1) as nat) is Some {
            let m = walk(edges1, e, (k - 1) as nat)->Some_0;
            lemma_walk_in_bounds(edges1, e, (k - 1) as nat, m);
        }
    }
}

/// Fan walks only read `next` and `opposite` fields: two closed arenas of one
/// length whose slots agree on both walk alike from an in-bounds start.
pub proof fn lemma_fan_walk_frame(edges1: Seq<HalfEdge>, edges2: Seq<HalfEdge>, e: int, k: nat)
    requires
        edges_closed(edges1),
        edges1.len() == edges2.len(),
        forall|i: int|
            0 <= i < edges1.len() ==> edges1[i].next == edges2[i].next && edges1[i].opposite
                == edges2[i].opposite,
        0 <= e < edges1.len(),
    ensures
        fan_walk(edges1, e, k) == fan_walk(edges2, e, k),
    decreases k,
{
    if k > 0 {
        lemma_fan_walk_frame(edges1, edges2, e, (k - 1) as nat);
        if fan_walk(edges1, e, (k - 1) as nat) is Some {
            let m = fan_walk(edges1, e, (k - 1) as nat)->Some_0;
            lemma_fan_walk_in_bounds(edges1, e, (k - 1) as nat, m);
            if next_index(edges1, m) is Some {
                let n = next_index(edges1, m)->Some_0;
                assert(0 <= n < edges1.len());
            }
        }
    }
}

/// The slots a facet loop visits before closing are pairwise distinct.
pub proof fn lemma_loop_distinct(edges: Seq<HalfEdge>, e: int, d: int, i: int, j: int)
    requires
        is_loop(edges, e, d),
        0 <= i < j < d,
    ensures
        walk(edges, e, i as nat) != walk(edges, e, j as nat),
{
    if walk(edges, e, i as nat) == walk(edges, e, j as nat) {
        lemma_walk_add(edges, e, i as nat, (d - i) as nat);
        assert(walk(edges, e, i as nat) is Some);
        let m = walk(edges, e, i as nat)->Some_0;
        lemma_walk_add(edges, e, i as nat, (d - j) as nat);
        lemma_walk_add(edges, e, j as nat, (d - j) as nat);
        assert(walk(edges, e, (i + d - j) as nat) == walk(edges, m, (d - j) as nat));
        assert(walk(edges, e, d as nat) == walk(edges, m, (d - j) as nat));
        assert(walk(edges, e, (i + d - j) as nat) == Option::<int>::Some(e));
        assert(1 <= i + d - j < d);
    }
}

/// The slots a vertex fan visits before closing are pairwise distinct.
pub proof fn lemma_fan_loop_distinct(edges: Seq<HalfEdge>, e: int, d: int, i: int, j: int)
    requires
        is_fan_loop(edges, e, d),
        0 <= i < j < d,
    ensures
        fan_walk(edges, e, i as nat) != fan_walk(edges, e, j as nat),
{
    if fan_walk(edges, e, i as nat) == fan_walk(edges, e, j as nat) {
        lemma_fan_walk_add(edges, e, i as nat, (d - i) as nat);
        assert(fan_walk(edges, e, i as nat) is Some);
        let m = fan_walk(edges, e, i as nat)->Some_0;
        lemma_fan_walk_add(edges, e, i as nat, (d - j) as nat);
        lemma_fan_walk_add(edges, e, j as nat, (d - j) as nat);
        assert(fan_walk(edges, e, (i + d - j) as nat) == fan_walk(edges, m, (d - j) as nat));
        assert(fan_walk(edges, e, d as nat) == fan_walk(edges, m, (d - j) as nat));
        assert(fan_walk(edges, e, (i + d - j) as nat) == Option::<int>::Some(e));
        assert(1 <= i + d - j < d);
    }
}

/// A facet loop through `e` has only one degree.
pub proof fn lemma_loop_unique(edges: Seq<HalfEdge>, e: int, d1: int, d2: int)
    requires
        is_loop(edges, e, d1),
        is_loop(edges, e, d2),
    ensures
        d1 == d2,
{
    if d1 < d2 {
        assert(walk(edges, e, d1 as nat) == Option::<int>::Some(e));
    }
    if d2 < d1 {
        assert(walk(edges, e, d2 as nat) == Option::<int>::Some(e));
    }
}

/// A vertex fan through `e` has only one degree.
pub proof fn lemma_fan_loop_unique(edges: Seq<HalfEdge>, e: int, d1: int, d2: int)
    requires
        is_fan_loop(edges, e, d1),
        is_fan_loop(edges, e, d2),
    ensures
        d1 == d2,
{
    if d1 < d2 {
        assert(fan_walk(edges, e, d1 as nat) == Option::<int>::Some(e));
    }
    if d2 < d1 {
        assert(fan_walk(edges, e, d2 as nat) == Option::<int>::Some(e));
    }
}

/// The first `n` slots chain each to its successor, the last back to slot 0.
pub open spec fn is_cycle(edges: Seq<HalfEdge>, n: int) -> bool {
    forall|i: int|
        0 <= i < n ==> #[trigger] next_index(edges, i) == Option::<int>::Some(
            if i + 1 < n {
                i + 1
            } else {
                0
            },
        )
}

/// Walking a cycle from `j` lands `j + k` slots along, wrapping at `n`.
pub proof fn lemma_cycle_walk(edges: Seq<HalfEdge>, n: int, j: int, k: nat)
    requires
        is_cycle(edges, n),
        0 <= j < n,
        j + k <= n,
    ensures
        walk(edges, j, k) == Option::<int>::Some(
            if j + k < n {
                j + k
            } else {
                0
            },
        ),
    decreases k,
{
    if k > 0 {
        lemma_cycle_walk(edges, n, j, (k - 1) as nat);
    }
}

/// Each slot of a cycle of length `n` lies on a facet loop of degree `n`.
pub proof fn lemma_cycle_is_loop(edges: Seq<HalfEdge>, n: int, j: int)
    requires
        is_cycle(edges, n),
        1 <= n,
        0 <= j < n,
    ensures
        is_loop(edges, j, n),
{
    lemma_cycle_walk(edges, n, j, (n - j) as nat);
    if j > 0 {
        lemma_cycle_walk(edges, n, 0, j as nat);
        lemma_walk_add(edges, j, (n - j) as nat, j as nat);
    }
    assert(walk(edges, j, n as nat) == Option::<int>::Some(j));
    assert forall|k: nat| 1 <= k < n implies #[trigger] walk(edges, j, k) != Option::<int>::Some(
        j,
    ) by {
        if j + k <= n {
            lemma_cycle_walk(edges, n, j, k);
        } else {
            lemma_walk_add(edges, j, (n - j) as nat, (k - (n - j)) as nat);
            lemma_cycle_walk(edges, n, 0, (k - (n - j)) as nat);
        }
    }
}

/// The slots a fan path visits before its endpoint are pairwise distinct.
pub proof fn lemma_fan_path_distinct(
    edges: Seq<HalfEdge>,
    e1: int,
    e2: int,
    k: int,
    i: int,
    j: int,
)
    requires
        is_fan_path(edges, e1, e2, k),
        0 <= i < j <= k,
        i + k - j >= 1,
    ensures
        fan_walk(edges, e1, i as nat) != fan_walk(edges, e1, j as nat),
{
    if fan_walk(edges, e1, i as nat) == fan_walk(edges, e1, j as nat) {
        lemma_fan_walk_add(edges, e1, i as nat, (k - j) as nat);
        lemma_fan_walk_add(edges, e1, j as nat, (k - j) as nat);
        assert(fan_walk(edges, e1, (i + k - j) as nat) == Option::<int>::Some(e2));
        assert(1 <= i + k - j < k);
    }
}

/// A walk that dies stays dead.
pub proof fn lemma_walk_none_persists(edges: Seq<HalfEdge>, e: int, j: nat, k: nat)
    requires
        walk(edges, e, j) is None,
        j <= k,
    ensures
        walk(edges, e, k) is None,
{
    lemma_walk_add(edges, e, j, (k - j) as nat);
}

/// A fan walk that dies stays dead.
pub proof fn lemma_fan_walk_none_persists(edges: Seq<HalfEdge>, e: int, j: nat, k: nat)
    requires
        fan_walk(edges, e, j) is None,
        j <= k,
    ensures
        fan_walk(edges, e, k) is None,
{
    lemma_fan_walk_add(edges, e, j, (k - j) as nat);
}

} // verus!
