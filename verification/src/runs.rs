//! Ordering windows by group and cutting the ordered list into runs.

use crate::forest::LayerWindow;
use itertools::Itertools;
use vstd::prelude::*;

verus! {

/// `perm` names every position below `n` exactly once.
pub open spec fn is_rearrangement(perm: Seq<int>, n: int) -> bool {
    &&& perm.len() == n
    &&& forall|k: int| 0 <= k < n ==> 0 <= #[trigger] perm[k] < n
    &&& forall|k1: int, k2: int| 0 <= k1 < k2 < n ==> #[trigger] perm[k1] != #[trigger] perm[k2]
    &&& forall|i: int| 0 <= i < n ==> #[trigger] perm.contains(i)
}

/// `after` holds at each position `k` what `before` held at `perm[k]`, in
/// ascending order of group, and windows of one group in the order in
/// which `before` held them.
pub open spec fn arranges_by_group(
    perm: Seq<int>,
    before: Seq<LayerWindow>,
    after: Seq<LayerWindow>,
) -> bool {
    &&& after.len() == before.len()
    &&& is_rearrangement(perm, before.len() as int)
    &&& forall|k: int| 0 <= k < after.len() ==> #[trigger] after[k] == before[perm[k]]
    &&& forall|k1: int, k2: int|
        0 <= k1 < k2 < after.len() ==> (#[trigger] after[k1]).group <= (#[trigger] after[k2]).group
    &&& forall|k1: int, k2: int|
        0 <= k1 < k2 < after.len() && (#[trigger] after[k1]).group == (#[trigger] after[k2]).group
            ==> perm[k1] < perm[k2]
}

/// `after` is `before` sorted by group, windows of equal group left in
/// their order.
pub open spec fn sorted_by_group(before: Seq<LayerWindow>, after: Seq<LayerWindow>) -> bool {
    exists|perm: Seq<int>| #[trigger] arranges_by_group(perm, before, after)
}

/// `chunks`, laid end to end, are `items`; no chunk is empty; the windows of
/// one chunk have one group; and where one chunk ends and the next begins
/// the group changes.
pub open spec fn chunked_by_group(items: Seq<LayerWindow>, chunks: Seq<Seq<LayerWindow>>) -> bool {
    &&& chunks.flatten() == items
    &&& forall|k: int| 0 <= k < chunks.len() ==> (#[trigger] chunks[k]).len() > 0
    &&& forall|k: int, m: int|
        0 <= k < chunks.len() && 0 <= m < chunks[k].len() ==> (#[trigger] chunks[k][m]).group
            == chunks[k][0].group
    &&& forall|k: int|
        0 <= k < chunks.len() - 1 ==> (#[trigger] chunks[k]).last().group != chunks[k + 1][0].group
}

/// The contents of each chunk.
pub open spec fn chunk_views(chunks: Seq<Vec<LayerWindow>>) -> Seq<Seq<LayerWindow>> {
    Seq::new(chunks.len(), |k: int| chunks[k]@)
}

/// Calls `slice::sort_by_key` of std with the window's group as the key.
/// The sort is stable: the windows come out in ascending order of group,
/// and those of equal group keep their order.
#[verifier::external_body]
pub(crate) fn sort_by_group(windows: &mut Vec<LayerWindow>)
    ensures
        sorted_by_group(old(windows)@, final(windows)@),
{
    windows.sort_by_key(|w| w.group);
}

/// Calls `Itertools::chunk_by` with the window's group as the key, and
/// collects each chunk, and the chunks, with `Itertools::collect_vec`.
/// Consecutive windows of one group form one chunk, and the chunks come in
/// the order of the windows.
#[verifier::external_body]
pub(crate) fn chunk_by_group(windows: Vec<LayerWindow>) -> (chunks: Vec<Vec<LayerWindow>>)
    ensures
        chunked_by_group(windows@, chunk_views(chunks@)),
{
    windows.into_iter().chunk_by(|w| w.group).into_iter().map(|(_, chunk)| chunk.collect_vec()).collect_vec()
}

/// Where chunk `k` begins in the chunks laid end to end.
pub open spec fn chunk_start(chunks: Seq<Seq<LayerWindow>>, k: int) -> int
    decreases k,
{
    if k <= 0 {
        0
    } else {
        chunk_start(chunks, k - 1) + chunks[k - 1].len()
    }
}

/// The first `k` chunks laid end to end are the first `chunk_start(k)` items
/// of all chunks laid end to end.
proof fn lemma_flatten_prefix(chunks: Seq<Seq<LayerWindow>>, k: int)
    requires
        0 <= k <= chunks.len(),
    ensures
        chunk_start(chunks, k) >= 0,
        chunks.subrange(0, k).flatten().len() == chunk_start(chunks, k),
        chunk_start(chunks, k) <= chunks.flatten().len(),
        chunks.subrange(0, k).flatten() == chunks.flatten().subrange(0, chunk_start(chunks, k)),
    decreases chunks.len() - k,
{
    if k == chunks.len() {
        assert(chunks.subrange(0, k) =~= chunks);
        lemma_flatten_len(chunks, k);
        assert(chunks.flatten().subrange(0, chunk_start(chunks, k)) =~= chunks.flatten());
    } else {
        lemma_flatten_prefix(chunks, k + 1);
        lemma_flatten_len(chunks, k);
        lemma_flatten_len(chunks, k + 1);
        let shorter = chunks.subrange(0, k);
        let longer = chunks.subrange(0, k + 1);
        assert(longer =~= shorter.push(chunks[k]));
        shorter.lemma_flatten_push(chunks[k]);
        assert(longer.flatten() =~= shorter.flatten() + chunks[k]);
        assert(shorter.flatten() =~= longer.flatten().subrange(0, chunk_start(chunks, k)));
        assert(shorter.flatten() =~= chunks.flatten().subrange(0, chunk_start(chunks, k)));
    }
}

proof fn lemma_flatten_len(chunks: Seq<Seq<LayerWindow>>, k: int)
    requires
        0 <= k <= chunks.len(),
    ensures
        chunk_start(chunks, k) >= 0,
        chunks.subrange(0, k).flatten().len() == chunk_start(chunks, k),
    decreases k,
{
    if k == 0 {
        assert(chunks.subrange(0, 0) =~= Seq::<Seq<LayerWindow>>::empty());
    } else {
        lemma_flatten_len(chunks, k - 1);
        let shorter = chunks.subrange(0, k - 1);
        assert(chunks.subrange(0, k) =~= shorter.push(chunks[k - 1]));
        shorter.lemma_flatten_push(chunks[k - 1]);
    }
}

/// Window `m` of chunk `k` is the item at `chunk_start(k) + m`.
pub proof fn lemma_chunk_item(chunks: Seq<Seq<LayerWindow>>, k: int, m: int)
    requires
        0 <= k < chunks.len(),
        0 <= m < chunks[k].len(),
    ensures
        0 <= chunk_start(chunks, k),
        chunk_start(chunks, k + 1) == chunk_start(chunks, k) + chunks[k].len(),
        chunk_start(chunks, k + 1) <= chunks.flatten().len(),
        chunks.flatten()[chunk_start(chunks, k) + m] == chunks[k][m],
{
    lemma_flatten_prefix(chunks, k);
    lemma_flatten_prefix(chunks, k + 1);
    let shorter = chunks.subrange(0, k);
    let longer = chunks.subrange(0, k + 1);
    assert(longer =~= shorter.push(chunks[k]));
    shorter.lemma_flatten_push(chunks[k]);
    assert(longer.flatten()[chunk_start(chunks, k) + m] == chunks[k][m]);
}

/// Every item lies in some chunk.
pub proof fn lemma_item_chunk(chunks: Seq<Seq<LayerWindow>>, p: int) -> (at: (int, int))
    requires
        0 <= p < chunks.flatten().len(),
    ensures
        0 <= at.0 < chunks.len(),
        0 <= at.1 < chunks[at.0].len(),
        chunk_start(chunks, at.0) + at.1 == p,
        chunks.flatten()[p] == chunks[at.0][at.1],
{
    lemma_flatten_len(chunks, chunks.len() as int);
    assert(chunks.subrange(0, chunks.len() as int) =~= chunks);
    let k = lemma_find_chunk(chunks, p, chunks.len() as int);
    lemma_chunk_item(chunks, k, p - chunk_start(chunks, k));
    (k, p - chunk_start(chunks, k))
}

proof fn lemma_find_chunk(chunks: Seq<Seq<LayerWindow>>, p: int, upto: int) -> (k: int)
    requires
        0 <= upto <= chunks.len(),
        0 <= p < chunk_start(chunks, upto),
    ensures
        0 <= k < chunks.len(),
        chunk_start(chunks, k) <= p < chunk_start(chunks, k) + chunks[k].len(),
    decreases upto,
{
    lemma_flatten_len(chunks, upto - 1);
    if p >= chunk_start(chunks, upto - 1) {
        upto - 1
    } else {
        lemma_find_chunk(chunks, p, upto - 1)
    }
}

} // verus!
