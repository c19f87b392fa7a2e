//! Reachability in a graph on the indices below a bound: the walks along a
//! step relation, and what follows from their existence.

use vstd::prelude::*;

verus! {

/// `path` is a walk: it is not empty, stays below `n`, and each of its
/// entries is one step from the one before.
pub open spec fn is_walk(step: spec_fn(int, int) -> bool, n: int, path: Seq<int>) -> bool {
    &&& path.len() >= 1
    &&& forall|k: int| 0 <= k < path.len() ==> 0 <= #[trigger] path[k] < n
    &&& forall|k: int| 0 <= k < path.len() - 1 ==> step(#[trigger] path[k], path[k + 1])
}

/// Some walk leads from `a` to `b`.
pub open spec fn reachable(step: spec_fn(int, int) -> bool, n: int, a: int, b: int) -> bool {
    exists|path: Seq<int>| #[trigger] is_walk(step, n, path) && path.first() == a && path.last() == b
}

/// Every index reaches itself.
pub proof fn lemma_reach_self(step: spec_fn(int, int) -> bool, n: int, a: int)
    requires
        0 <= a < n,
    ensures
        reachable(step, n, a, a),
{
    let path = seq![a];
    assert(is_walk(step, n, path));
}

/// One step is a walk.
pub proof fn lemma_reach_step(step: spec_fn(int, int) -> bool, n: int, a: int, b: int)
    requires
        0 <= a < n,
        0 <= b < n,
        step(a, b),
    ensures
        reachable(step, n, a, b),
{
    let path = seq![a, b];
    assert(is_walk(step, n, path));
}

/// Two walks that meet make one walk.
pub proof fn lemma_reach_trans(step: spec_fn(int, int) -> bool, n: int, a: int, b: int, c: int)
    requires
        reachable(step, n, a, b),
        reachable(step, n, b, c),
    ensures
        reachable(step, n, a, c),
{
    let p = choose|path: Seq<int>| #[trigger]
        is_walk(step, n, path) && path.first() == a && path.last() == b;
    let q = choose|path: Seq<int>| #[trigger]
        is_walk(step, n, path) && path.first() == b && path.last() == c;
    let path = p + q.drop_first();
    assert forall|k: int| 0 <= k < path.len() implies 0 <= #[trigger] path[k] < n by {
        if k < p.len() {
            assert(path[k] == p[k]);
        } else {
            assert(path[k] == q[k - p.len() + 1]);
        }
    }
    assert forall|k: int| 0 <= k < path.len() - 1 implies step(#[trigger] path[k], path[k + 1]) by {
        if k < p.len() - 1 {
            assert(path[k] == p[k] && path[k + 1] == p[k + 1]);
        } else if k == p.len() - 1 {
            assert(path[k] == p[k] && p[k] == q[0] && path[k + 1] == q[1]);
        } else {
            let m = k - p.len() + 1;
            assert(path[k] == q[m] && path[k + 1] == q[m + 1]);
        }
    }
    assert(is_walk(step, n, path));
    assert(path.first() == a);
    if q.len() == 1 {
        assert(path =~= p);
    } else {
        assert(path.last() == q.last());
    }
}

/// Where every step can be taken backwards, so can every walk.
pub proof fn lemma_reach_sym(step: spec_fn(int, int) -> bool, n: int, a: int, b: int)
    requires
        forall|u: int, v: int| 0 <= u < n && 0 <= v < n && #[trigger] step(u, v) ==> step(v, u),
        reachable(step, n, a, b),
    ensures
        reachable(step, n, b, a),
{
    let p = choose|path: Seq<int>| #[trigger]
        is_walk(step, n, path) && path.first() == a && path.last() == b;
    let path = Seq::new(p.len(), |k: int| p[p.len() - 1 - k]);
    assert forall|k: int| 0 <= k < path.len() - 1 implies step(#[trigger] path[k], path[k + 1]) by {
        let m = p.len() - 2 - k;
        assert(step(p[m], p[m + 1]));
    }
    assert(is_walk(step, n, path));
}

/// A relation that holds of every index with itself, that is transitive,
/// and that holds along every step, holds between the ends of every walk.
pub proof fn lemma_reach_within(
    step: spec_fn(int, int) -> bool,
    n: int,
    rel: spec_fn(int, int) -> bool,
    a: int,
    b: int,
)
    requires
        forall|u: int| 0 <= u < n ==> #[trigger] rel(u, u),
        forall|u: int, v: int, w: int|
            0 <= u < n && 0 <= v < n && 0 <= w < n && #[trigger] rel(u, v) && #[trigger] rel(v, w)
                ==> rel(u, w),
        forall|u: int, v: int| 0 <= u < n && 0 <= v < n && #[trigger] step(u, v) ==> rel(u, v),
        reachable(step, n, a, b),
    ensures
        rel(a, b),
{
    let p = choose|path: Seq<int>| #[trigger]
        is_walk(step, n, path) && path.first() == a && path.last() == b;
    lemma_walk_within(step, n, rel, p, p.len() - 1);
}

proof fn lemma_walk_within(
    step: spec_fn(int, int) -> bool,
    n: int,
    rel: spec_fn(int, int) -> bool,
    p: Seq<int>,
    k: int,
)
    requires
        forall|u: int| 0 <= u < n ==> #[trigger] rel(u, u),
        forall|u: int, v: int, w: int|
            0 <= u < n && 0 <= v < n && 0 <= w < n && #[trigger] rel(u, v) && #[trigger] rel(v, w)
                ==> rel(u, w),
        forall|u: int, v: int| 0 <= u < n && 0 <= v < n && #[trigger] step(u, v) ==> rel(u, v),
        is_walk(step, n, p),
        0 <= k < p.len(),
    ensures
        rel(p[0], p[k]),
    decreases k,
{
    assert(0 <= p[0] < n);
    if k > 0 {
        lemma_walk_within(step, n, rel, p, k - 1);
        assert(0 <= p[k - 1] < n && 0 <= p[k] < n);
        assert(step(p[k - 1], p[k]));
        assert(rel(p[k - 1], p[k]));
    }
}

} // verus!
