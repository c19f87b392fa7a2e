//! Partitioning windows into groups of regions that touch, directly or
//! through a chain of others.

use crate::forest::{
    get_window_group, is_forest, lemma_merge_roots, lemma_on_path, lemma_root_bounds, on_path,
    root_of, same_group, LayerWindow,
};
use crate::geometry::{touches, PixelRect};
use crate::partition::{
    adjacency, adjacent, connected, is_leader, joins, leaders, leads, lemma_select_unique, members,
    window_groups,
};
use crate::reach::{
    lemma_reach_self, lemma_reach_step, lemma_reach_sym, lemma_reach_trans, lemma_reach_within,
    reachable,
};
use crate::runs::{
    arranges_by_group, chunk_by_group, chunk_start, chunk_views, chunked_by_group,
    lemma_chunk_item, lemma_item_chunk, sort_by_group, sorted_by_group,
};
use crate::window::Window;
use vstd::prelude::*;

verus! {

/// One step between windows that a forest already holds in one group, or
/// that are neighbours.
pub open spec fn link(ws: Seq<LayerWindow>, regions: Seq<PixelRect>) -> spec_fn(int, int) -> bool {
    |u: int, v: int| same_group(ws, u, v) || adjacent(regions, u, v)
}

/// Windows `a` and `b` are linked: a chain leads from one to the other in
/// which each window is in the group of the next or is its neighbour.
pub open spec fn linked(ws: Seq<LayerWindow>, regions: Seq<PixelRect>, a: int, b: int) -> bool {
    reachable(link(ws, regions), ws.len() as int, a, b)
}

/// Being linked is symmetric.
pub proof fn lemma_linked_sym(ws: Seq<LayerWindow>, regions: Seq<PixelRect>, a: int, b: int)
    requires
        linked(ws, regions, a, b),
    ensures
        linked(ws, regions, b, a),
{
    let step = link(ws, regions);
    assert forall|u: int, v: int| #[trigger] step(u, v) implies step(v, u) by {}
    lemma_reach_sym(step, ws.len() as int, a, b);
}

/// What has come together in `cur` so far stays justified when the groups
/// of two neighbours `i` and `j` are merged into `next`.
proof fn lemma_merge_is_sound(
    ws: Seq<LayerWindow>,
    regions: Seq<PixelRect>,
    cur: Seq<LayerWindow>,
    next: Seq<LayerWindow>,
    i: int,
    j: int,
)
    requires
        cur.len() == ws.len(),
        next.len() == ws.len(),
        0 <= i < j < ws.len(),
        touches(regions[i], regions[j]),
        forall|a: int, b: int|
            0 <= a < ws.len() && 0 <= b < ws.len() && #[trigger] same_group(cur, a, b) ==> linked(
                ws,
                regions,
                a,
                b,
            ),
        forall|a: int|
            0 <= a < ws.len() ==> #[trigger] root_of(next, a) == (if root_of(cur, a) == root_of(
                cur,
                i,
            ) || root_of(cur, a) == root_of(cur, j) {
                if root_of(cur, i) <= root_of(cur, j) {
                    root_of(cur, i)
                } else {
                    root_of(cur, j)
                }
            } else {
                root_of(cur, a)
            }),
    ensures
        forall|a: int, b: int|
            0 <= a < ws.len() && 0 <= b < ws.len() && #[trigger] same_group(next, a, b) ==> linked(
                ws,
                regions,
                a,
                b,
            ),
{
    let n = ws.len() as int;
    let step = link(ws, regions);
    assert(step(i, j));
    lemma_reach_step(step, n, i, j);
    lemma_linked_sym(ws, regions, i, j);
    assert forall|a: int, b: int|
        0 <= a < ws.len() && 0 <= b < ws.len() && #[trigger] same_group(next, a, b) implies linked(
        ws,
        regions,
        a,
        b,
    ) by {
        let ra = root_of(cur, a);
        let rb = root_of(cur, b);
        let ri = root_of(cur, i);
        let rj = root_of(cur, j);
        if ra == rb {
            assert(same_group(cur, a, b));
        } else {
            // both groups take part in the merge
            assert(ra == ri || ra == rj);
            assert(rb == ri || rb == rj);
            if ra == ri {
                assert(same_group(cur, a, i));
                assert(same_group(cur, j, b));
                lemma_reach_trans(step, n, a, i, j);
                lemma_reach_trans(step, n, a, j, b);
            } else {
                assert(same_group(cur, a, j));
                assert(same_group(cur, i, b));
                lemma_reach_trans(step, n, a, j, i);
                lemma_reach_trans(step, n, a, i, b);
            }
        }
    }
}

/// Once every pair of neighbours stands in one group of `cur`, and `cur`
/// has kept together what `ws` held together, whatever is linked stands in
/// one group.
proof fn lemma_links_are_grouped(
    ws: Seq<LayerWindow>,
    regions: Seq<PixelRect>,
    cur: Seq<LayerWindow>,
    a: int,
    b: int,
)
    requires
        cur.len() == ws.len(),
        forall|u: int, v: int|
            0 <= u < ws.len() && 0 <= v < ws.len() && #[trigger] same_group(ws, u, v)
                ==> same_group(cur, u, v),
        forall|p: int, q: int|
            0 <= p < q < ws.len() && #[trigger] touches(regions[p], regions[q]) ==> same_group(
                cur,
                p,
                q,
            ),
        linked(ws, regions, a, b),
    ensures
        same_group(cur, a, b),
{
    let n = ws.len() as int;
    let step = link(ws, regions);
    let rel = |u: int, v: int| same_group(cur, u, v);
    assert forall|u: int, v: int| 0 <= u < n && 0 <= v < n && #[trigger] step(u, v) implies rel(
        u,
        v,
    ) by {
        if same_group(ws, u, v) {
        } else if u < v {
            assert(touches(regions[u], regions[v]));
        } else {
            assert(touches(regions[v], regions[u]));
            assert(same_group(cur, v, u));
        }
    }
    lemma_reach_within(step, n, rel, a, b);
}

/// Merges the groups of every two windows whose regions touch.
///
/// Afterwards two windows stand in one group exactly if they were linked
/// before: if a chain leads from one to the other in which each window was
/// already in the group of the next, or is its neighbour.
pub fn group_windows_with_regions(windows: &mut Vec<LayerWindow>, regions: &Vec<PixelRect>)
    requires
        is_forest(old(windows)@),
        old(windows).len() <= regions.len(),
    ensures
        final(windows).len() == old(windows).len(),
        is_forest(final(windows)@),
        forall|i: int|
            0 <= i < old(windows).len() ==> (#[trigger] final(windows)@[i]).window == old(
                windows,
            )@[i].window,
        forall|a: int, b: int|
            0 <= a < old(windows).len() && 0 <= b < old(windows).len() ==> (#[trigger] same_group(
                final(windows)@,
                a,
                b,
            ) <==> linked(old(windows)@, regions@, a, b)),
{
    let n: usize = windows.len();
    let ghost ws = windows@;
    proof {
        assert forall|a: int, b: int|
            0 <= a < n && 0 <= b < n && #[trigger] same_group(ws, a, b) implies linked(
            ws,
            regions@,
            a,
            b,
        ) by {
            assert(link(ws, regions@)(a, b));
            lemma_reach_step(link(ws, regions@), n as int, a, b);
        }
    }
    let mut i: usize = 0;
    while i < n
        invariant
            ws == old(windows)@,
            n == ws.len(),
            n <= regions.len(),
            i <= n,
            windows.len() == n,
            is_forest(windows@),
            forall|k: int| 0 <= k < n ==> (#[trigger] windows@[k]).window == ws[k].window,
            forall|a: int, b: int|
                0 <= a < n && 0 <= b < n && #[trigger] same_group(windows@, a, b) ==> linked(
                    ws,
                    regions@,
                    a,
                    b,
                ),
            forall|a: int, b: int|
                0 <= a < n && 0 <= b < n && #[trigger] same_group(ws, a, b) ==> same_group(
                    windows@,
                    a,
                    b,
                ),
            forall|p: int, q: int|
                0 <= p < q < n && p < i && #[trigger] touches(regions@[p], regions@[q])
                    ==> same_group(windows@, p, q),
        decreases n - i,
    {
        let mut j: usize = i + 1;
        while j < n
            invariant
                ws == old(windows)@,
                n == ws.len(),
                n <= regions.len(),
                i < j <= n,
                windows.len() == n,
                is_forest(windows@),
                forall|k: int| 0 <= k < n ==> (#[trigger] windows@[k]).window == ws[k].window,
                forall|a: int, b: int|
                    0 <= a < n && 0 <= b < n && #[trigger] same_group(windows@, a, b) ==> linked(
                        ws,
                        regions@,
                        a,
                        b,
                    ),
                forall|a: int, b: int|
                    0 <= a < n && 0 <= b < n && #[trigger] same_group(ws, a, b) ==> same_group(
                        windows@,
                        a,
                        b,
                    ),
                forall|p: int, q: int|
                    0 <= p < q < n && (p < i || (p == i && q < j)) && #[trigger] touches(
                        regions@[p],
                        regions@[q],
                    ) ==> same_group(windows@, p, q),
            decreases n - j,
        {
            let ghost before = windows@;
            let group_i = get_window_group(windows, i);
            let group_j = get_window_group(windows, j);
            let ghost cur = windows@;
            proof {
                lemma_root_bounds(cur, i as int);
                lemma_root_bounds(cur, j as int);
                assert forall|a: int, b: int| 0 <= a < n && 0 <= b < n implies same_group(
                    cur,
                    a,
                    b,
                ) == same_group(before, a, b) by {}
            }
            if group_i != group_j && regions[i].touches(&regions[j]) {
                let new_group = if group_i <= group_j { group_i } else { group_j };
                windows[group_i].group = new_group;
                windows[group_j].group = new_group;
                proof {
                    let next = windows@;
                    let keep = new_group as int;
                    let gone = if group_i <= group_j { group_j as int } else { group_i as int };
                    lemma_merge_roots(cur, next, keep, gone);
                    lemma_merge_is_sound(ws, regions@, cur, next, i as int, j as int);
                    assert forall|a: int, b: int|
                        0 <= a < n && 0 <= b < n && same_group(cur, a, b) implies same_group(
                        next,
                        a,
                        b,
                    ) by {}
                    assert(same_group(next, i as int, j as int));
                }
            }
            j = j + 1;
        }
        i = i + 1;
    }
    proof {
        assert forall|a: int, b: int| 0 <= a < n && 0 <= b < n implies (#[trigger] same_group(
            windows@,
            a,
            b,
        ) <==> linked(ws, regions@, a, b)) by {
            if linked(ws, regions@, a, b) {
                lemma_links_are_grouped(ws, regions@, windows@, a, b);
            }
        }
    }
}

/// In a forest in which every window is its own group, being linked is
/// being connected.
proof fn lemma_fresh_links(ws: Seq<LayerWindow>, regions: Seq<PixelRect>, a: int, b: int)
    requires
        ws.len() == regions.len(),
        forall|i: int| 0 <= i < ws.len() ==> (#[trigger] ws[i]).group == i,
    ensures
        linked(ws, regions, a, b) == connected(regions, a, b),
{
    let n = ws.len() as int;
    let wide = link(ws, regions);
    let narrow = adjacency(regions);
    let by_wide = |u: int, v: int| reachable(wide, n, u, v);
    let by_narrow = |u: int, v: int| reachable(narrow, n, u, v);
    if linked(ws, regions, a, b) {
        assert forall|u: int| 0 <= u < n implies #[trigger] by_narrow(u, u) by {
            lemma_reach_self(narrow, n, u);
        }
        assert forall|u: int, v: int, w: int|
            0 <= u < n && 0 <= v < n && 0 <= w < n && #[trigger] by_narrow(u, v)
                && #[trigger] by_narrow(v, w) implies by_narrow(u, w) by {
            lemma_reach_trans(narrow, n, u, v, w);
        }
        assert forall|u: int, v: int| 0 <= u < n && 0 <= v < n && #[trigger] wide(
            u,
            v,
        ) implies by_narrow(u, v) by {
            if adjacent(regions, u, v) {
                assert(narrow(u, v));
                lemma_reach_step(narrow, n, u, v);
            } else {
                assert(root_of(ws, u) == u && root_of(ws, v) == v);
                lemma_reach_self(narrow, n, u);
            }
        }
        lemma_reach_within(wide, n, by_narrow, a, b);
    }
    if connected(regions, a, b) {
        assert forall|u: int| 0 <= u < n implies #[trigger] by_wide(u, u) by {
            lemma_reach_self(wide, n, u);
        }
        assert forall|u: int, v: int, w: int|
            0 <= u < n && 0 <= v < n && 0 <= w < n && #[trigger] by_wide(u, v) && #[trigger] by_wide(
                v,
                w,
            ) implies by_wide(u, w) by {
            lemma_reach_trans(wide, n, u, v, w);
        }
        assert forall|u: int, v: int| 0 <= u < n && 0 <= v < n && #[trigger] narrow(
            u,
            v,
        ) implies by_wide(u, v) by {
            assert(wide(u, v));
            lemma_reach_step(wide, n, u, v);
        }
        lemma_reach_within(narrow, n, by_wide, a, b);
    }
}

/// Every window points at the representative of its group, and the groups
/// are the classes of connected windows.
pub open spec fn is_resolved(ws: Seq<LayerWindow>, regions: Seq<PixelRect>) -> bool {
    &&& ws.len() == regions.len()
    &&& is_forest(ws)
    &&& forall|i: int|
        0 <= i < ws.len() ==> (#[trigger] ws[i]).window == i && ws[i].group == root_of(ws, i)
    &&& forall|a: int, b: int|
        0 <= a < ws.len() && 0 <= b < ws.len() ==> (#[trigger] same_group(ws, a, b) <==> connected(
            regions,
            a,
            b,
        ))
}

/// In a resolved forest a window leads its group exactly if it is its own
/// parent.
proof fn lemma_leader_is_root(ws: Seq<LayerWindow>, regions: Seq<PixelRect>, r: int)
    requires
        is_resolved(ws, regions),
        0 <= r < ws.len(),
    ensures
        is_leader(regions, r) <==> ws[r].group == r,
{
    lemma_root_bounds(ws, r);
    if ws[r].group == r {
        assert forall|j: int| 0 <= j < r implies !#[trigger] connected(regions, j, r) by {
            lemma_root_bounds(ws, j);
            assert(!same_group(ws, j, r));
        }
    } else {
        let j = ws[r].group as int;
        assert(same_group(ws, j, r));
        assert(connected(regions, j, r));
    }
}

/// The groups of the chunks ascend strictly.
proof fn lemma_keys_ascend(
    perm: Seq<int>,
    ws: Seq<LayerWindow>,
    sorted: Seq<LayerWindow>,
    chunks: Seq<Seq<LayerWindow>>,
    k1: int,
    k2: int,
)
    requires
        arranges_by_group(perm, ws, sorted),
        chunked_by_group(sorted, chunks),
        0 <= k1 < k2 < chunks.len(),
    ensures
        chunks[k1][0].group < chunks[k2][0].group,
    decreases k2 - k1,
{
    if k1 + 1 < k2 {
        lemma_keys_ascend(perm, ws, sorted, chunks, k1, k2 - 1);
    }
    let k = k2 - 1;
    let last = chunks[k].len() - 1;
    lemma_chunk_item(chunks, k, last);
    lemma_chunk_item(chunks, k2, 0);
    let left = chunk_start(chunks, k) + last;
    let right = chunk_start(chunks, k2);
    assert(sorted[left] == chunks[k][last]);
    assert(sorted[right] == chunks[k2][0]);
    assert(sorted[left].group <= sorted[right].group);
    assert(chunks[k][last].group == chunks[k][0].group);
    assert(chunks[k].last().group != chunks[k + 1][0].group);
}

/// Sorting the resolved windows by group and cutting them where the group
/// changes yields the groups of the regions.
proof fn lemma_chunks_are_groups(
    regions: Seq<PixelRect>,
    ws: Seq<LayerWindow>,
    sorted: Seq<LayerWindow>,
    chunks: Seq<Seq<LayerWindow>>,
    groups: Seq<Seq<int>>,
)
    requires
        is_resolved(ws, regions),
        sorted_by_group(ws, sorted),
        chunked_by_group(sorted, chunks),
        groups.len() == chunks.len(),
        forall|k: int| 0 <= k < groups.len() ==> (#[trigger] groups[k]).len() == chunks[k].len(),
        forall|k: int, m: int|
            0 <= k < groups.len() && 0 <= m < groups[k].len() ==> #[trigger] groups[k][m]
                == chunks[k][m].window,
    ensures
        groups == window_groups(regions),
{
    let n = regions.len();
    let perm = choose|perm: Seq<int>| #[trigger] arranges_by_group(perm, ws, sorted);
    let keys = Seq::new(chunks.len(), |k: int| chunks[k][0].group as int);
    // what stands at each place of each chunk
    assert forall|k: int, m: int| 0 <= k < chunks.len() && 0 <= m < chunks[k].len() implies {
        let p = chunk_start(chunks, k) + m;
        &&& 0 <= p < n
        &&& 0 <= perm[p] < n
        &&& (#[trigger] chunks[k][m]) == ws[perm[p]]
        &&& chunks[k][m].window == perm[p]
        &&& chunks[k][m].group == root_of(ws, perm[p])
        &&& chunks[k][m].group == keys[k]
        &&& ws[keys[k]].group == keys[k]
        &&& 0 <= keys[k] < n
    } by {
        lemma_chunk_item(chunks, k, m);
        let p = chunk_start(chunks, k) + m;
        assert(sorted[p] == ws[perm[p]]);
        lemma_root_bounds(ws, perm[p]);
    }
    // the keys are the leaders
    assert forall|k: int| 0 <= k < keys.len() implies 0 <= #[trigger] keys[k] < n && leads(
        regions,
    )(keys[k]) by {
        assert(chunks[k][0].group == keys[k]);
        lemma_leader_is_root(ws, regions, keys[k]);
    }
    assert forall|k1: int, k2: int| 0 <= k1 < k2 < keys.len() implies #[trigger] keys[k1]
        < #[trigger] keys[k2] by {
        lemma_keys_ascend(perm, ws, sorted, chunks, k1, k2);
    }
    assert forall|r: int| 0 <= r < n && leads(regions)(r) implies #[trigger] keys.contains(r) by {
        lemma_leader_is_root(ws, regions, r);
        assert(perm.contains(r));
        let p = choose|p: int| 0 <= p < perm.len() && perm[p] == r;
        assert(sorted[p] == ws[perm[p]]);
        let at = lemma_item_chunk(chunks, p);
        assert(chunks[at.0][at.1].group == keys[at.0]);
        assert(keys[at.0] == r);
    }
    lemma_select_unique(keys, n, leads(regions));
    assert(keys == leaders(regions));
    // each chunk holds the members of its leader
    assert forall|k: int| 0 <= k < groups.len() implies #[trigger] groups[k] == members(
        regions,
        keys[k],
    ) by {
        let g = groups[k];
        let r = keys[k];
        let keep = joins(regions, r);
        assert(chunks[k][0].group == keys[k]);
        assert(root_of(ws, r) == r);
        assert forall|m: int| 0 <= m < g.len() implies 0 <= #[trigger] g[m] < n && keep(g[m]) by {
            assert(chunks[k][m].group == keys[k]);
            assert(groups[k][m] == chunks[k][m].window);
            assert(same_group(ws, r, g[m]));
        }
        assert forall|m1: int, m2: int| 0 <= m1 < m2 < g.len() implies #[trigger] g[m1]
            < #[trigger] g[m2] by {
            lemma_chunk_item(chunks, k, m1);
            lemma_chunk_item(chunks, k, m2);
            let left = chunk_start(chunks, k) + m1;
            let right = chunk_start(chunks, k) + m2;
            assert(chunks[k][m1].group == keys[k] && chunks[k][m2].group == keys[k]);
            assert(sorted[left] == chunks[k][m1] && sorted[right] == chunks[k][m2]);
            assert(sorted[left].group == sorted[right].group);
            assert(perm[left] < perm[right]);
            assert(groups[k][m1] == chunks[k][m1].window);
            assert(groups[k][m2] == chunks[k][m2].window);
        }
        assert forall|i: int| 0 <= i < n && keep(i) implies #[trigger] g.contains(i) by {
            assert(same_group(ws, r, i));
            assert(perm.contains(i));
            let p = choose|p: int| 0 <= p < perm.len() && perm[p] == i;
            assert(sorted[p] == ws[perm[p]]);
            let at = lemma_item_chunk(chunks, p);
            assert(chunks[at.0][at.1].group == keys[at.0]);
            if at.0 < k {
                lemma_keys_ascend(perm, ws, sorted, chunks, at.0, k);
            } else if k < at.0 {
                lemma_keys_ascend(perm, ws, sorted, chunks, k, at.0);
            }
            assert(groups[k][at.1] == chunks[k][at.1].window);
            assert(g[at.1] == i);
        }
        lemma_select_unique(g, n, keep);
    }
    assert(groups =~= window_groups(regions));
}

/// The groups as sequences of window indices.
pub open spec fn groups_view(groups: Seq<Vec<usize>>) -> Seq<Seq<int>> {
    Seq::new(groups.len(), |k: int| Seq::new(groups[k]@.len(), |m: int| groups[k]@[m] as int))
}

/// The regions of the windows, in their order.
pub open spec fn window_regions(windows: Seq<Window>) -> Seq<PixelRect> {
    Seq::new(windows.len(), |i: int| windows[i].region)
}

/// Partitions the windows into groups of windows that are connected
/// through touching regions.
///
/// Each group lists its windows by their place in `windows`, in ascending
/// order; the groups come in ascending order of their first window.
pub fn group_windows(windows: &Vec<Window>) -> (groups: Vec<Vec<usize>>)
    ensures
        groups_view(groups@) == window_groups(window_regions(windows@)),
{
    let n: usize = windows.len();
    let mut regions: Vec<PixelRect> = Vec::new();
    let mut i: usize = 0;
    while i < n
        invariant
            i <= n,
            n == windows.len(),
            regions@ == window_regions(windows@).subrange(0, i as int),
        decreases n - i,
    {
        regions.push(windows[i].region);
        i = i + 1;
        assert(regions@ =~= window_regions(windows@).subrange(0, i as int));
    }
    assert(regions@ =~= window_regions(windows@));
    let regions = &regions;
    let mut windows: Vec<LayerWindow> = Vec::new();
    let mut i: usize = 0;
    while i < n
        invariant
            i <= n,
            windows.len() == i,
            forall|k: int|
                0 <= k < i ==> (#[trigger] windows@[k]).window == k && windows@[k].group == k,
        decreases n - i,
    {
        windows.push(LayerWindow { window: i, group: i });
        i = i + 1;
    }
    let ghost fresh = windows@;
    group_windows_with_regions(&mut windows, regions);
    let ghost merged = windows@;
    proof {
        assert forall|a: int, b: int| 0 <= a < n && 0 <= b < n implies (#[trigger] same_group(
            merged,
            a,
            b,
        ) <==> connected(regions@, a, b)) by {
            lemma_fresh_links(fresh, regions@, a, b);
        }
    }
    let mut i: usize = 0;
    while i < n
        invariant
            i <= n,
            n == regions.len(),
            windows.len() == n,
            merged.len() == n,
            is_forest(windows@),
            forall|k: int| 0 <= k < n ==> (#[trigger] windows@[k]).window == k,
            forall|k: int| 0 <= k < n ==> #[trigger] root_of(windows@, k) == root_of(merged, k),
            forall|k: int| 0 <= k < i ==> (#[trigger] windows@[k]).group == root_of(merged, k),
        decreases n - i,
    {
        let ghost before = windows@;
        let _ = get_window_group(&mut windows, i);
        proof {
            assert forall|k: int| 0 <= k < i + 1 implies (#[trigger] windows@[k]).group == root_of(
                merged,
                k,
            ) by {
                if on_path(before, i as int, k) {
                    lemma_on_path(before, i as int, k);
                }
            }
        }
        i = i + 1;
    }
    let ghost resolved = windows@;
    proof {
        assert forall|a: int, b: int| 0 <= a < n && 0 <= b < n implies (#[trigger] same_group(
            resolved,
            a,
            b,
        ) <==> connected(regions@, a, b)) by {
            assert(same_group(resolved, a, b) == same_group(merged, a, b));
        }
        assert(is_resolved(resolved, regions@));
    }
    sort_by_group(&mut windows);
    let ghost sorted = windows@;
    let chunks = chunk_by_group(windows);
    let mut groups: Vec<Vec<usize>> = Vec::new();
    let mut k: usize = 0;
    while k < chunks.len()
        invariant
            k <= chunks.len(),
            groups.len() == k,
            forall|c: int| 0 <= c < k ==> (#[trigger] groups@[c])@.len() == chunks@[c]@.len(),
            forall|c: int, m: int|
                0 <= c < k && 0 <= m < groups@[c]@.len() ==> #[trigger] groups@[c]@[m]
                    == chunks@[c]@[m].window,
        decreases chunks.len() - k,
    {
        let chunk = &chunks[k];
        let mut group: Vec<usize> = Vec::new();
        let mut m: usize = 0;
        while m < chunk.len()
            invariant
                m <= chunk.len(),
                group.len() == m,
                forall|x: int| 0 <= x < m ==> #[trigger] group@[x] == chunk@[x].window,
            decreases chunk.len() - m,
        {
            group.push(chunk[m].window);
            m = m + 1;
        }
        groups.push(group);
        k = k + 1;
    }
    proof {
        let cs = chunk_views(chunks@);
        let gs = groups_view(groups@);
        assert forall|c: int, m: int| 0 <= c < gs.len() && 0 <= m < gs[c].len() implies #[trigger] gs[c][m]
            == cs[c][m].window by {
            assert(groups@[c]@[m] == chunks@[c]@[m].window);
        }
        lemma_chunks_are_groups(regions@, resolved, sorted, cs, gs);
    }
    groups
}

/// Grouping is a function of the regions in their order: two runs on the
/// same regions yield the same groups.
pub proof fn lemma_grouping_is_deterministic(
    regions: Seq<PixelRect>,
    first: Seq<Vec<usize>>,
    second: Seq<Vec<usize>>,
)
    requires
        groups_view(first) == window_groups(regions),
        groups_view(second) == window_groups(regions),
    ensures
        first.len() == second.len(),
        forall|k: int| 0 <= k < first.len() ==> (#[trigger] first[k])@ == second[k]@,
{
    assert(groups_view(first).len() == first.len());
    assert(groups_view(second).len() == second.len());
    assert forall|k: int| 0 <= k < first.len() implies (#[trigger] first[k])@ == second[k]@ by {
        let a = groups_view(first)[k];
        let b = groups_view(second)[k];
        assert(a == b);
        assert(a.len() == first[k]@.len());
        assert(b.len() == second[k]@.len());
        assert forall|m: int| 0 <= m < first[k]@.len() implies first[k]@[m] == second[k]@[m] by {
            assert(a[m] == first[k]@[m] as int);
            assert(b[m] == second[k]@[m] as int);
        }
        assert(first[k]@ =~= second[k]@);
    }
}

} // verus!
