//! The combined outline of the windows of one layer.

use crate::geometry::PixelRect;
use vstd::prelude::*;

verus! {

/// The outline of a layer: the regions whose union it is, and the rectangle
/// that bounds them.
#[derive(Debug)]
pub struct Silhouette {
    pub regions: Vec<PixelRect>,
    pub bounds: PixelRect,
}

/// The join of all of `regions`, taken from the first to the last.
pub open spec fn bounding_rect(regions: Seq<PixelRect>) -> PixelRect
    decreases regions.len(),
{
    if regions.len() <= 1 {
        regions.first()
    } else {
        bounding_rect(regions.drop_last()).join_spec(regions.last())
    }
}

/// The bounding rectangle encloses every region.
pub proof fn lemma_bounding_rect_encloses(regions: Seq<PixelRect>, k: int)
    requires
        0 <= k < regions.len(),
    ensures
        bounding_rect(regions).encloses(regions[k]),
    decreases regions.len(),
{
    if regions.len() > 1 {
        if k < regions.len() - 1 {
            lemma_bounding_rect_encloses(regions.drop_last(), k);
        }
    }
}

/// The bounding rectangle is the smallest one that encloses every region:
/// whatever encloses them all encloses it.
pub proof fn lemma_bounding_rect_is_least(regions: Seq<PixelRect>, outer: PixelRect)
    requires
        regions.len() > 0,
        forall|k: int| 0 <= k < regions.len() ==> outer.encloses(#[trigger] regions[k]),
    ensures
        outer.encloses(bounding_rect(regions)),
    decreases regions.len(),
{
    if regions.len() > 1 {
        let rest = regions.drop_last();
        assert forall|k: int| 0 <= k < rest.len() implies outer.encloses(#[trigger] rest[k]) by {
            assert(rest[k] == regions[k]);
        }
        lemma_bounding_rect_is_least(rest, outer);
        assert(outer.encloses(regions[regions.len() - 1]));
    } else {
        assert(outer.encloses(regions[0]));
    }
}

/// Builds the silhouette of the windows with the given regions.
pub fn build_silhouette(regions: &Vec<PixelRect>) -> (silhouette: Silhouette)
    requires
        regions.len() > 0,
    ensures
        silhouette.regions@ == regions@,
        silhouette.bounds == bounding_rect(regions@),
{
    let mut members: Vec<PixelRect> = Vec::new();
    let mut bounds = regions[0];
    members.push(regions[0]);
    let mut i: usize = 1;
    while i < regions.len()
        invariant
            1 <= i <= regions.len(),
            members@ == regions@.subrange(0, i as int),
            bounds == bounding_rect(regions@.subrange(0, i as int)),
        decreases regions.len() - i,
    {
        proof {
            let longer = regions@.subrange(0, i + 1);
            assert(longer.drop_last() =~= regions@.subrange(0, i as int));
        }
        bounds = bounds.join(&regions[i]);
        members.push(regions[i]);
        i = i + 1;
        assert(members@ =~= regions@.subrange(0, i as int));
    }
    assert(regions@.subrange(0, i as int) =~= regions@);
    Silhouette { regions: members, bounds }
}

} // verus!
