//! View-aligned mask cut: erase the voxels of a segmentation whose screen
//! projection falls into a painted 2-D mask.
//!
//! The projective arithmetic runs at the caller's edge and hands this kernel
//! one screen pixel per voxel, or none when the voxel lies behind the view or
//! beyond the cutting depth.  The kernel owns the decision: a voxel currently
//! in the segmentation (value above 127) whose pixel is painted is zeroed,
//! every other voxel keeps its value.

use vstd::prelude::*;

use crate::grid::{Grid2, Grid3};

verus! {

/// Whether the projection of flat cell `i` hits a painted mask pixel; the
/// entry is `(px, py)` and the mask is indexed `(py, px)`.
pub open spec fn proj_hits(mask: Grid2<u8>, proj: Seq<Option<(usize, usize)>>, i: int) -> bool {
    match proj[i] {
        Some(p) => mask.val(p.1 as int, p.0 as int) != 0,
        None => false,
    }
}

/// What one voxel holds after the cut.
pub open spec fn cut_cell(v: u8, hit: bool) -> u8 {
    if v > 127 && hit {
        0u8
    } else {
        v
    }
}

/// Erase every voxel that is in the segmentation and projects into the
/// painted mask area.
///
/// `proj[i]` is the screen pixel `(px, py)` of the voxel at flat index `i`,
/// or `None` when the voxel is behind the view plane or beyond the cutting
/// depth.  A voxel with value above 127 whose pixel is painted (mask entry
/// non-zero) becomes 0; every other voxel keeps its value.
pub fn mask_cut(out: &mut Grid3<u8>, mask: &Grid2<u8>, proj: &Vec<Option<(usize, usize)>>)
    requires
        old(out).wf(),
        mask.wf(),
        proj@.len() == old(out).data@.len(),
        forall|i: int|
            0 <= i < proj@.len() ==> ((#[trigger] proj@[i]) matches Some(p) ==> mask.in_bounds(
                p.1 as int,
                p.0 as int,
            )),
    ensures
        final(out).wf(),
        final(out).dims() == old(out).dims(),
        forall|i: int|
            0 <= i < old(out).data@.len() ==> #[trigger] final(out).data@[i] == cut_cell(
                old(out).data@[i],
                proj_hits(*mask, proj@, i),
            ),
{
    let n = out.data.len();
    let mut i: usize = 0;
    while i < n
        invariant
            out.wf(),
            mask.wf(),
            out.dz == old(out).dz,
            out.dy == old(out).dy,
            out.dx == old(out).dx,
            n == out.data@.len(),
            out.data@.len() == old(out).data@.len(),
            proj@.len() == old(out).data@.len(),
            i <= n,
            forall|k: int|
                0 <= k < proj@.len() ==> ((#[trigger] proj@[k]) matches Some(p)
                    ==> mask.in_bounds(p.1 as int, p.0 as int)),
            forall|k: int|
                0 <= k < i ==> #[trigger] out.data@[k] == cut_cell(
                    old(out).data@[k],
                    proj_hits(*mask, proj@, k),
                ),
            forall|k: int| i <= k < n ==> #[trigger] out.data@[k] == old(out).data@[k],
        decreases n - i,
    {
        if out.data[i] > 127 {
            match proj[i] {
                Some(p) => {
                    let (px, py) = p;
                    if mask.get(py, px) != 0 {
                        out.data[i] = 0;
                    }
                },
                None => {},
            }
        }
        i = i + 1;
    }
}

/// With the whole volume inside the segmentation and every voxel projected
/// onto a painted mask pixel, the cut clears the whole volume.
pub proof fn lemma_mask_cut_clears_all(
    out0: Grid3<u8>,
    out1: Grid3<u8>,
    mask: Grid2<u8>,
    proj: Seq<Option<(usize, usize)>>,
)
    requires
        proj.len() == out0.data@.len(),
        out1.data@.len() == out0.data@.len(),
        forall|i: int| 0 <= i < out0.data@.len() ==> #[trigger] out0.data@[i] == 255,
        forall|i: int| 0 <= i < proj.len() ==> #[trigger] proj_hits(mask, proj, i),
        forall|i: int|
            0 <= i < out0.data@.len() ==> #[trigger] out1.data@[i] == cut_cell(
                out0.data@[i],
                proj_hits(mask, proj, i),
            ),
    ensures
        forall|i: int| 0 <= i < out1.data@.len() ==> #[trigger] out1.data@[i] == 0,
{
    assert forall|i: int| 0 <= i < out1.data@.len() implies #[trigger] out1.data@[i] == 0 by {
        assert(out0.data@[i] == 255);
        assert(proj_hits(mask, proj, i));
    }
}

} // verus!
