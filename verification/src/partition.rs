//! What the grouping of windows is: the connected components of the graph
//! in which two windows are joined when their regions touch.

use crate::geometry::{touches, PixelRect};
use crate::reach::{
    lemma_reach_self, lemma_reach_step, lemma_reach_sym, lemma_reach_trans, reachable,
};
use vstd::prelude::*;

verus! {

/// Windows `u` and `v` are neighbours: the region of the earlier one, grown
/// by the adjacency margin, intersects the region of the later one.
pub open spec fn adjacent(regions: Seq<PixelRect>, u: int, v: int) -> bool {
    ||| u < v && touches(regions[u], regions[v])
    ||| v < u && touches(regions[v], regions[u])
}

/// One step between neighbours.
pub open spec fn adjacency(regions: Seq<PixelRect>) -> spec_fn(int, int) -> bool {
    |u: int, v: int| adjacent(regions, u, v)
}

/// Windows `a` and `b` are connected: a chain of windows leads from one to
/// the other, each the neighbour of the next.
pub open spec fn connected(regions: Seq<PixelRect>, a: int, b: int) -> bool {
    reachable(adjacency(regions), regions.len() as int, a, b)
}

/// The indices below `n` that `keep` holds of, in ascending order.
pub open spec fn select(n: nat, keep: spec_fn(int) -> bool) -> Seq<int>
    decreases n,
{
    if n == 0 {
        Seq::empty()
    } else if keep(n - 1) {
        select((n - 1) as nat, keep).push(n - 1)
    } else {
        select((n - 1) as nat, keep)
    }
}

/// Window `i` leads its group: no earlier window is connected to it.
pub open spec fn is_leader(regions: Seq<PixelRect>, i: int) -> bool {
    forall|j: int| 0 <= j < i ==> !#[trigger] connected(regions, j, i)
}

/// The condition of leading a group.
pub open spec fn leads(regions: Seq<PixelRect>) -> spec_fn(int) -> bool {
    |i: int| is_leader(regions, i)
}

/// The condition of being connected to `leader`.
pub open spec fn joins(regions: Seq<PixelRect>, leader: int) -> spec_fn(int) -> bool {
    |i: int| connected(regions, leader, i)
}

/// The windows that lead a group, in ascending order.
pub open spec fn leaders(regions: Seq<PixelRect>) -> Seq<int> {
    select(regions.len(), leads(regions))
}

/// The windows connected to `leader`, in ascending order.
pub open spec fn members(regions: Seq<PixelRect>, leader: int) -> Seq<int> {
    select(regions.len(), joins(regions, leader))
}

/// The groups of the windows with the given regions: one group for each
/// leader, in ascending order of the leaders, and in each group the windows
/// connected to its leader, in ascending order.
pub open spec fn window_groups(regions: Seq<PixelRect>) -> Seq<Seq<int>> {
    Seq::new(leaders(regions).len(), |k: int| members(regions, leaders(regions)[k]))
}

/// `select` yields indices below the bound that satisfy the condition, in
/// strictly ascending order, and leaves none of them out.
pub proof fn lemma_select(n: nat, keep: spec_fn(int) -> bool)
    ensures
        forall|k: int|
            0 <= k < select(n, keep).len() ==> 0 <= #[trigger] select(n, keep)[k] < n && keep(
                select(n, keep)[k],
            ),
        forall|k1: int, k2: int|
            0 <= k1 < k2 < select(n, keep).len() ==> #[trigger] select(n, keep)[k1]
                < #[trigger] select(n, keep)[k2],
        forall|i: int| 0 <= i < n && keep(i) ==> #[trigger] select(n, keep).contains(i),
    decreases n,
{
    if n > 0 {
        let rest = select((n - 1) as nat, keep);
        lemma_select((n - 1) as nat, keep);
        let s = select(n, keep);
        assert forall|i: int| 0 <= i < n && keep(i) implies #[trigger] s.contains(i) by {
            if i == n - 1 {
                assert(s[s.len() - 1] == i);
            } else {
                assert(rest.contains(i));
                let k = choose|k: int| 0 <= k < rest.len() && rest[k] == i;
                assert(s[k] == i);
            }
        }
    }
}

/// A strictly ascending sequence that holds exactly the indices below the
/// bound that satisfy the condition is the one that `select` yields.
pub proof fn lemma_select_unique(s: Seq<int>, n: nat, keep: spec_fn(int) -> bool)
    requires
        forall|k: int| 0 <= k < s.len() ==> 0 <= #[trigger] s[k] < n && keep(s[k]),
        forall|k1: int, k2: int| 0 <= k1 < k2 < s.len() ==> #[trigger] s[k1] < #[trigger] s[k2],
        forall|i: int| 0 <= i < n && keep(i) ==> #[trigger] s.contains(i),
    ensures
        s == select(n, keep),
    decreases n,
{
    if n == 0 {
        if s.len() > 0 {
            assert(0 <= s[0] < n);
        }
        assert(s =~= Seq::<int>::empty());
    } else if keep(n - 1) {
        assert(s.contains(n - 1));
        let at = choose|k: int| 0 <= k < s.len() && s[k] == n - 1;
        if at < s.len() - 1 {
            assert(s[at] < s[s.len() - 1]);
        }
        let t = s.drop_last();
        assert forall|k: int| 0 <= k < t.len() implies 0 <= #[trigger] t[k] < n - 1 && keep(
            t[k],
        ) by {
            assert(t[k] == s[k]);
            assert(s[k] < s[at]);
        }
        assert forall|k1: int, k2: int| 0 <= k1 < k2 < t.len() implies #[trigger] t[k1]
            < #[trigger] t[k2] by {
            assert(t[k1] == s[k1] && t[k2] == s[k2]);
        }
        assert forall|i: int| 0 <= i < n - 1 && keep(i) implies #[trigger] t.contains(i) by {
            assert(s.contains(i));
            let k = choose|k: int| 0 <= k < s.len() && s[k] == i;
            assert(t[k] == i);
        }
        lemma_select_unique(t, (n - 1) as nat, keep);
        assert(s =~= t.push(n - 1));
    } else {
        assert forall|i: int| 0 <= i < n - 1 && keep(i) implies #[trigger] s.contains(i) by {}
        lemma_select_unique(s, (n - 1) as nat, keep);
    }
}

/// Every window is connected to itself.
pub proof fn lemma_connected_self(regions: Seq<PixelRect>, a: int)
    requires
        0 <= a < regions.len(),
    ensures
        connected(regions, a, a),
{
    lemma_reach_self(adjacency(regions), regions.len() as int, a);
}

/// Being connected is symmetric.
pub proof fn lemma_connected_sym(regions: Seq<PixelRect>, a: int, b: int)
    requires
        connected(regions, a, b),
    ensures
        connected(regions, b, a),
{
    let step = adjacency(regions);
    assert forall|u: int, v: int| #[trigger] step(u, v) implies step(v, u) by {}
    lemma_reach_sym(step, regions.len() as int, a, b);
}

/// Being connected is transitive.
pub proof fn lemma_connected_trans(regions: Seq<PixelRect>, a: int, b: int, c: int)
    requires
        connected(regions, a, b),
        connected(regions, b, c),
    ensures
        connected(regions, a, c),
{
    lemma_reach_trans(adjacency(regions), regions.len() as int, a, b, c);
}

/// Neighbours are connected.
pub proof fn lemma_neighbours_connected(regions: Seq<PixelRect>, a: int, b: int)
    requires
        0 <= a < regions.len(),
        0 <= b < regions.len(),
        adjacent(regions, a, b),
    ensures
        connected(regions, a, b),
{
    assert(adjacency(regions)(a, b));
    lemma_reach_step(adjacency(regions), regions.len() as int, a, b);
}

/// The first window from `from` on that is connected to window `i`.
pub open spec fn first_connected(regions: Seq<PixelRect>, i: int, from: int) -> int
    decreases i - from,
{
    if from >= i || connected(regions, from, i) {
        from
    } else {
        first_connected(regions, i, from + 1)
    }
}

/// The leader of the group of window `i`: the first window connected to it.
pub open spec fn leader_of(regions: Seq<PixelRect>, i: int) -> int {
    first_connected(regions, i, 0)
}

proof fn lemma_first_connected(regions: Seq<PixelRect>, i: int, from: int)
    requires
        0 <= from <= i < regions.len(),
        forall|j: int| 0 <= j < from ==> !#[trigger] connected(regions, j, i),
    ensures
        from <= first_connected(regions, i, from) <= i,
        connected(regions, first_connected(regions, i, from), i),
        forall|j: int|
            0 <= j < first_connected(regions, i, from) ==> !#[trigger] connected(regions, j, i),
    decreases i - from,
{
    if from >= i {
        lemma_connected_self(regions, i);
    } else if !connected(regions, from, i) {
        lemma_first_connected(regions, i, from + 1);
    }
}

/// Every window has a leader: a window no later than itself that leads a
/// group and is connected to it.
pub proof fn lemma_leader_of(regions: Seq<PixelRect>, i: int)
    requires
        0 <= i < regions.len(),
    ensures
        0 <= leader_of(regions, i) <= i,
        is_leader(regions, leader_of(regions, i)),
        connected(regions, leader_of(regions, i), i),
        leaders(regions).contains(leader_of(regions, i)),
        members(regions, leader_of(regions, i)).contains(i),
{
    let r = leader_of(regions, i);
    lemma_first_connected(regions, i, 0);
    assert forall|j: int| 0 <= j < r implies !#[trigger] connected(regions, j, r) by {
        if connected(regions, j, r) {
            lemma_connected_trans(regions, j, r, i);
        }
    }
    lemma_select(regions.len(), leads(regions));
    lemma_select(regions.len(), joins(regions, r));
    assert(leads(regions)(r));
    assert(joins(regions, r)(i));
}

/// Window `i` stands in one of `groups`.
pub open spec fn holds(groups: Seq<Seq<int>>, i: int) -> bool {
    exists|k: int| 0 <= k < groups.len() && (#[trigger] groups[k]).contains(i)
}

/// Windows `a` and `b` stand in one of `groups`.
pub open spec fn together(groups: Seq<Seq<int>>, a: int, b: int) -> bool {
    exists|k: int| 0 <= k < groups.len() && (#[trigger] groups[k]).contains(a) && groups[k].contains(b)
}

/// What stands in group `k`: windows connected to its leader, which is a
/// window that leads a group.
proof fn lemma_group_members(regions: Seq<PixelRect>, k: int, i: int)
    requires
        0 <= k < window_groups(regions).len(),
        window_groups(regions)[k].contains(i),
    ensures
        k < leaders(regions).len(),
        0 <= leaders(regions)[k] < regions.len(),
        is_leader(regions, leaders(regions)[k]),
        0 <= i < regions.len(),
        connected(regions, leaders(regions)[k], i),
{
    let r = leaders(regions)[k];
    lemma_select(regions.len(), leads(regions));
    lemma_select(regions.len(), joins(regions, r));
    assert(leads(regions)(r));
    let g = members(regions, r);
    let m = choose|m: int| 0 <= m < g.len() && g[m] == i;
    assert(joins(regions, r)(g[m]));
}

/// The groups part the windows: no group is empty, every group holds
/// windows of the input, each once and in ascending order, and every window
/// of the input stands in exactly one group.
pub proof fn lemma_groups_partition(regions: Seq<PixelRect>)
    ensures
        forall|k: int|
            0 <= k < window_groups(regions).len() ==> (#[trigger] window_groups(regions)[k]).len()
                > 0,
        forall|k: int, m: int|
            0 <= k < window_groups(regions).len() && 0 <= m < window_groups(regions)[k].len() ==> 0
                <= #[trigger] window_groups(regions)[k][m] < regions.len(),
        forall|k: int, m1: int, m2: int|
            0 <= k < window_groups(regions).len() && 0 <= m1 < m2 < window_groups(regions)[k].len()
                ==> #[trigger] window_groups(regions)[k][m1] < #[trigger] window_groups(
                regions,
            )[k][m2],
        forall|i: int| 0 <= i < regions.len() ==> #[trigger] holds(window_groups(regions), i),
        forall|i: int, k1: int, k2: int|
            0 <= k1 < window_groups(regions).len() && 0 <= k2 < window_groups(regions).len()
                && #[trigger] window_groups(regions)[k1].contains(i) && #[trigger] window_groups(
                regions,
            )[k2].contains(i) ==> k1 == k2,
{
    let n = regions.len();
    let groups = window_groups(regions);
    let heads = leaders(regions);
    lemma_select(n, leads(regions));
    assert forall|k: int| 0 <= k < groups.len() implies (#[trigger] groups[k]).len() > 0 by {
        let r = heads[k];
        lemma_select(n, joins(regions, r));
        lemma_connected_self(regions, r);
        assert(joins(regions, r)(r));
        assert(members(regions, r).contains(r));
    }
    assert forall|k: int, m: int| 0 <= k < groups.len() && 0 <= m < groups[k].len() implies 0
        <= #[trigger] groups[k][m] < n by {
        lemma_select(n, joins(regions, heads[k]));
    }
    assert forall|k: int, m1: int, m2: int|
        0 <= k < groups.len() && 0 <= m1 < m2 < groups[k].len() implies #[trigger] groups[k][m1]
        < #[trigger] groups[k][m2] by {
        lemma_select(n, joins(regions, heads[k]));
    }
    assert forall|i: int| 0 <= i < n implies #[trigger] holds(groups, i) by {
        lemma_leader_of(regions, i);
        let r = leader_of(regions, i);
        let k = choose|k: int| 0 <= k < heads.len() && heads[k] == r;
        assert(groups[k].contains(i));
    }
    assert forall|i: int, k1: int, k2: int|
        0 <= k1 < groups.len() && 0 <= k2 < groups.len() && #[trigger] groups[k1].contains(i)
            && #[trigger] groups[k2].contains(i) implies k1 == k2 by {
        lemma_same_group(regions, k1, k2, i);
    }
}

/// A window stands in one group only.
proof fn lemma_same_group(regions: Seq<PixelRect>, k1: int, k2: int, i: int)
    requires
        0 <= k1 < window_groups(regions).len(),
        0 <= k2 < window_groups(regions).len(),
        window_groups(regions)[k1].contains(i),
        window_groups(regions)[k2].contains(i),
    ensures
        k1 == k2,
{
    let heads = leaders(regions);
    lemma_group_members(regions, k1, i);
    lemma_group_members(regions, k2, i);
    lemma_select(regions.len(), leads(regions));
    let r1 = heads[k1];
    let r2 = heads[k2];
    lemma_connected_sym(regions, r2, i);
    lemma_connected_trans(regions, r1, i, r2);
    lemma_connected_sym(regions, r1, r2);
    if k1 < k2 {
        assert(heads[k1] < heads[k2]);
    } else if k2 < k1 {
        assert(heads[k2] < heads[k1]);
    }
}

/// Two windows stand in one group exactly if they are connected: windows
/// whose regions touch end up together, and so do windows joined by a chain
/// of such; windows that no chain joins end up apart.
pub proof fn lemma_together_iff_connected(regions: Seq<PixelRect>, a: int, b: int)
    requires
        0 <= a < regions.len(),
        0 <= b < regions.len(),
    ensures
        together(window_groups(regions), a, b) <==> connected(regions, a, b),
{
    let groups = window_groups(regions);
    if together(groups, a, b) {
        let k = choose|k: int|
            0 <= k < groups.len() && (#[trigger] groups[k]).contains(a) && groups[k].contains(b);
        lemma_group_members(regions, k, a);
        lemma_group_members(regions, k, b);
        let r = leaders(regions)[k];
        lemma_connected_sym(regions, r, a);
        lemma_connected_trans(regions, a, r, b);
    }
    if connected(regions, a, b) {
        lemma_leader_of(regions, a);
        let r = leader_of(regions, a);
        let heads = leaders(regions);
        let k = choose|k: int| 0 <= k < heads.len() && heads[k] == r;
        lemma_connected_trans(regions, r, a, b);
        lemma_select(regions.len(), joins(regions, r));
        assert(joins(regions, r)(b));
        assert(groups[k].contains(a));
        assert(groups[k].contains(b));
    }
}

/// Two windows of which the earlier one's region, grown by the adjacency
/// margin, intersects the later one's stand in one group.
pub proof fn lemma_touching_are_together(regions: Seq<PixelRect>, a: int, b: int)
    requires
        0 <= a < b < regions.len(),
        touches(regions[a], regions[b]),
    ensures
        together(window_groups(regions), a, b),
{
    lemma_neighbours_connected(regions, a, b);
    lemma_together_iff_connected(regions, a, b);
}

/// Where `a` and `b` are neighbours, and `b` and `c`, the three stand in
/// one group, whether or not `a` and `c` are neighbours.
pub proof fn lemma_chain_of_three(regions: Seq<PixelRect>, a: int, b: int, c: int)
    requires
        0 <= a < regions.len(),
        0 <= b < regions.len(),
        0 <= c < regions.len(),
        adjacent(regions, a, b),
        adjacent(regions, b, c),
    ensures
        exists|k: int|
            0 <= k < window_groups(regions).len() && (#[trigger] window_groups(regions)[k]).contains(
                a,
            ) && window_groups(regions)[k].contains(b) && window_groups(regions)[k].contains(c),
{
    let groups = window_groups(regions);
    lemma_neighbours_connected(regions, a, b);
    lemma_neighbours_connected(regions, b, c);
    lemma_connected_trans(regions, a, b, c);
    lemma_together_iff_connected(regions, a, b);
    lemma_together_iff_connected(regions, a, c);
    let k1 = choose|k: int|
        0 <= k < groups.len() && (#[trigger] groups[k]).contains(a) && groups[k].contains(b);
    let k2 = choose|k: int|
        0 <= k < groups.len() && (#[trigger] groups[k]).contains(a) && groups[k].contains(c);
    lemma_same_group(regions, k1, k2, a);
}

} // verus!
