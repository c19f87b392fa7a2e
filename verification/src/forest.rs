//! The disjoint-set forest that records which windows belong together.

use vstd::prelude::*;

verus! {

/// A window during grouping: its place in the input, and the window that
/// stands for its group (its parent in the forest).
#[derive(Clone, Copy, Debug, PartialEq, Eq, Structural)]
pub struct LayerWindow {
    pub window: usize,
    pub group: usize,
}

/// Every window's parent is itself or an earlier window. The smaller index
/// survives every merge, so parents only ever point backwards.
pub open spec fn is_forest(ws: Seq<LayerWindow>) -> bool {
    forall|i: int| 0 <= i < ws.len() ==> (#[trigger] ws[i]).group <= i
}

/// The representative of the group that window `i` belongs to: the end of
/// the chain of parents that starts at `i`.
pub open spec fn root_of(ws: Seq<LayerWindow>, i: int) -> int
    decreases i,
{
    if 0 <= i < ws.len() && ws[i].group < i {
        root_of(ws, ws[i].group as int)
    } else {
        i
    }
}

/// Whether window `i` lies on the chain of parents that starts at `from`,
/// both ends included.
pub open spec fn on_path(ws: Seq<LayerWindow>, from: int, i: int) -> bool
    decreases from,
{
    i == from || (0 <= from < ws.len() && ws[from].group < from && on_path(
        ws,
        ws[from].group as int,
        i,
    ))
}

/// Two windows stand in the same group.
pub open spec fn same_group(ws: Seq<LayerWindow>, a: int, b: int) -> bool {
    root_of(ws, a) == root_of(ws, b)
}

/// A root is its own parent, lies in range and is no later than the window.
pub proof fn lemma_root_bounds(ws: Seq<LayerWindow>, i: int)
    requires
        is_forest(ws),
        0 <= i < ws.len(),
    ensures
        0 <= root_of(ws, i) <= i,
        ws[root_of(ws, i)].group == root_of(ws, i),
        root_of(ws, root_of(ws, i)) == root_of(ws, i),
        on_path(ws, i, root_of(ws, i)),
    decreases i,
{
    if ws[i].group < i {
        lemma_root_bounds(ws, ws[i].group as int);
    }
}

/// Whatever lies on a chain lies between its start and its root, and has
/// the same root.
pub proof fn lemma_on_path(ws: Seq<LayerWindow>, from: int, i: int)
    requires
        is_forest(ws),
        0 <= from < ws.len(),
        on_path(ws, from, i),
    ensures
        root_of(ws, from) <= i <= from,
        root_of(ws, i) == root_of(ws, from),
    decreases from,
{
    lemma_root_bounds(ws, from);
    if i != from {
        lemma_on_path(ws, ws[from].group as int, i);
    }
}

/// A chain has no branches: of two windows on it, the earlier one lies on
/// the chain that starts at the later one.
pub proof fn lemma_path_is_chain(ws: Seq<LayerWindow>, from: int, node: int, i: int)
    requires
        is_forest(ws),
        0 <= from < ws.len(),
        on_path(ws, from, node),
        on_path(ws, from, i),
        i <= node,
    ensures
        on_path(ws, node, i),
    decreases from,
{
    if node != from {
        if i == from {
            lemma_on_path(ws, from, node);
        } else {
            lemma_path_is_chain(ws, ws[from].group as int, node, i);
        }
    }
}

/// Finds the representative of the group of window `index`, and makes every
/// window on the way point straight at it.
pub fn get_window_group(windows: &mut Vec<LayerWindow>, index: usize) -> (root: usize)
    requires
        is_forest(old(windows)@),
        index < old(windows).len(),
    ensures
        root == root_of(old(windows)@, index as int),
        final(windows).len() == old(windows).len(),
        forall|i: int|
            0 <= i < old(windows).len() ==> (#[trigger] final(windows)@[i]).window == old(
                windows,
            )@[i].window,
        forall|i: int|
            0 <= i < old(windows).len() ==> (#[trigger] final(windows)@[i]).group == (if on_path(
                old(windows)@,
                index as int,
                i,
            ) {
                root
            } else {
                old(windows)@[i].group
            }),
        is_forest(final(windows)@),
        forall|i: int|
            0 <= i < old(windows).len() ==> #[trigger] root_of(final(windows)@, i) == root_of(
                old(windows)@,
                i,
            ),
{
    let mut root: usize = index;
    while windows[root].group != root
        invariant
            windows@ == old(windows)@,
            is_forest(windows@),
            root <= index < windows.len(),
            on_path(windows@, index as int, root as int),
            root_of(windows@, root as int) == root_of(windows@, index as int),
        decreases root,
    {
        proof {
            lemma_extend_path(windows@, index as int, root as int);
        }
        root = windows[root].group;
    }
    proof {
        assert forall|i: int| on_path(windows@, index as int, i) implies i <= index by {
            lemma_on_path(windows@, index as int, i);
        }
    }
    let mut node: usize = index;
    while node != root
        invariant
            is_forest(old(windows)@),
            windows.len() == old(windows).len(),
            root as int == root_of(old(windows)@, index as int),
            root <= node <= index < windows.len(),
            on_path(old(windows)@, index as int, node as int),
            forall|i: int|
                0 <= i < windows.len() ==> (#[trigger] windows@[i]).window == old(
                    windows,
                )@[i].window,
            forall|i: int|
                0 <= i < windows.len() ==> (#[trigger] windows@[i]).group == (if on_path(
                    old(windows)@,
                    index as int,
                    i,
                ) && i > node {
                    root
                } else {
                    old(windows)@[i].group
                }),
        decreases node,
    {
        let next: usize = windows[node].group;
        proof {
            let ws = old(windows)@;
            lemma_on_path(ws, index as int, node as int);
            lemma_root_bounds(ws, node as int);
            lemma_extend_path(ws, index as int, node as int);
            lemma_on_path(ws, index as int, next as int);
            assert forall|i: int| on_path(ws, index as int, i) && i > next implies i >= node by {
                if i < node {
                    lemma_path_is_chain(ws, index as int, node as int, i);
                    lemma_on_path(ws, next as int, i);
                }
            }
        }
        windows[node].group = root;
        node = next;
    }
    proof {
        let ws = old(windows)@;
        lemma_root_bounds(ws, index as int);
        assert forall|i: int| 0 <= i < ws.len() implies (#[trigger] windows@[i]).group == (if on_path(
            ws,
            index as int,
            i,
        ) {
            root
        } else {
            ws[i].group
        }) by {
            if on_path(ws, index as int, i) {
                lemma_on_path(ws, index as int, i);
            }
        }
        lemma_compress_keeps_roots(ws, windows@, index as int);
    }
    root
}

/// Pointing the windows of one chain straight at its root leaves a forest,
/// and changes the root of no window.
pub proof fn lemma_compress_keeps_roots(ws: Seq<LayerWindow>, ns: Seq<LayerWindow>, index: int)
    requires
        is_forest(ws),
        0 <= index < ws.len(),
        ns.len() == ws.len(),
        forall|i: int|
            0 <= i < ws.len() ==> (#[trigger] ns[i]).group == (if on_path(ws, index, i) {
                root_of(ws, index)
            } else {
                ws[i].group as int
            }),
    ensures
        is_forest(ns),
        forall|i: int| 0 <= i < ws.len() ==> #[trigger] root_of(ns, i) == root_of(ws, i),
{
    assert forall|i: int| 0 <= i < ns.len() implies (#[trigger] ns[i]).group <= i by {
        if on_path(ws, index, i) {
            lemma_on_path(ws, index, i);
        }
    }
    assert forall|i: int| 0 <= i < ws.len() implies #[trigger] root_of(ns, i) == root_of(ws, i) by {
        lemma_compress_keeps_root(ws, ns, index, i);
    }
}

proof fn lemma_compress_keeps_root(ws: Seq<LayerWindow>, ns: Seq<LayerWindow>, index: int, i: int)
    requires
        is_forest(ws),
        is_forest(ns),
        0 <= index < ws.len(),
        ns.len() == ws.len(),
        forall|k: int|
            0 <= k < ws.len() ==> (#[trigger] ns[k]).group == (if on_path(ws, index, k) {
                root_of(ws, index)
            } else {
                ws[k].group as int
            }),
        0 <= i < ws.len(),
    ensures
        root_of(ns, i) == root_of(ws, i),
    decreases i,
{
    let g = ns[i].group as int;
    if on_path(ws, index, i) {
        lemma_on_path(ws, index, i);
        lemma_root_bounds(ws, i);
        if g < i {
            lemma_compress_keeps_root(ws, ns, index, g);
        }
    } else {
        if g < i {
            lemma_compress_keeps_root(ws, ns, index, g);
        }
    }
}

/// Making one root the child of an earlier root leaves a forest, in which
/// the windows of the later root's group now belong to the earlier root.
pub proof fn lemma_merge_roots(ws: Seq<LayerWindow>, ns: Seq<LayerWindow>, keep: int, gone: int)
    requires
        is_forest(ws),
        ns.len() == ws.len(),
        0 <= keep < gone < ws.len(),
        ws[keep].group == keep,
        ws[gone].group == gone,
        forall|i: int|
            0 <= i < ws.len() ==> (#[trigger] ns[i]).group == (if i == gone {
                keep
            } else {
                ws[i].group as int
            }),
    ensures
        is_forest(ns),
        forall|i: int|
            0 <= i < ws.len() ==> #[trigger] root_of(ns, i) == (if root_of(ws, i) == gone {
                keep
            } else {
                root_of(ws, i)
            }),
{
    assert forall|i: int| 0 <= i < ws.len() implies #[trigger] root_of(ns, i) == (if root_of(ws, i)
        == gone {
        keep
    } else {
        root_of(ws, i)
    }) by {
        lemma_merge_root(ws, ns, keep, gone, i);
    }
}

proof fn lemma_merge_root(ws: Seq<LayerWindow>, ns: Seq<LayerWindow>, keep: int, gone: int, i: int)
    requires
        is_forest(ws),
        ns.len() == ws.len(),
        0 <= keep < gone < ws.len(),
        ws[keep].group == keep,
        ws[gone].group == gone,
        forall|k: int|
            0 <= k < ws.len() ==> (#[trigger] ns[k]).group == (if k == gone {
                keep
            } else {
                ws[k].group as int
            }),
        0 <= i < ws.len(),
    ensures
        root_of(ns, i) == (if root_of(ws, i) == gone {
            keep
        } else {
            root_of(ws, i)
        }),
    decreases i,
{
    let g = ns[i].group as int;
    if g < i {
        lemma_merge_root(ws, ns, keep, gone, g);
    }
}

/// The parent of a window on a chain lies on that chain too.
pub proof fn lemma_extend_path(ws: Seq<LayerWindow>, from: int, node: int)
    requires
        is_forest(ws),
        0 <= from < ws.len(),
        on_path(ws, from, node),
    ensures
        0 <= node < ws.len(),
        on_path(ws, from, ws[node].group as int),
    decreases from,
{
    if node != from {
        lemma_extend_path(ws, ws[from].group as int, node);
    } else {
        assert(on_path(ws, ws[from].group as int, ws[from].group as int));
    }
}

} // verus!
