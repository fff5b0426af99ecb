//! Merging images that share a pixel grid into one image over the union of
//! their extents.
use vstd::prelude::*;

use crate::raster::{copied_byte, copy_block, uniform_band, Block};
use crate::split::{spec_plan_split, PixelRect, SplitPlan};

verus! {

/// Where an image lies in the shared pixel grid: columns `[x, x + width)`
/// and rows `[y, y + height)`.
#[derive(Clone, Copy, Debug, PartialEq, Eq, Structural)]
pub struct Placement {
    pub x: i64,
    pub y: i64,
    pub width: u64,
    pub height: u64,
}

/// The merged image, in the shared grid, and for each input the column and
/// row of the merged image where its pixels are written.
#[derive(Debug)]
pub struct MergeLayout {
    pub x: i64,
    pub y: i64,
    pub width: u64,
    pub height: u64,
    pub offsets: Vec<(u64, u64)>,
}

pub open spec fn right(p: Placement) -> int {
    p.x + p.width
}

pub open spec fn bottom(p: Placement) -> int {
    p.y + p.height
}

/// Every placement's right and bottom edge fits a grid coordinate.
pub open spec fn placements_fit(s: Seq<Placement>) -> bool {
    forall|i: int| 0 <= i < s.len() ==> right(#[trigger] s[i]) <= i64::MAX && bottom(s[i]) <= i64::MAX
}

/// `(x, y, width, height)` is the smallest box that holds every placement.
pub open spec fn is_union_box(s: Seq<Placement>, x: int, y: int, width: int, height: int) -> bool {
    &&& forall|i: int|
        0 <= i < s.len() ==> x <= (#[trigger] s[i]).x && y <= s[i].y && right(s[i]) <= x + width
            && bottom(s[i]) <= y + height
    &&& exists|i: int| 0 <= i < s.len() && (#[trigger] s[i]).x == x
    &&& exists|i: int| 0 <= i < s.len() && (#[trigger] s[i]).y == y
    &&& exists|i: int| 0 <= i < s.len() && right(#[trigger] s[i]) == x + width
    &&& exists|i: int| 0 <= i < s.len() && bottom(#[trigger] s[i]) == y + height
}

/// Lays out the merge of images placed in one pixel grid: the merged image
/// is the smallest box that holds them all, and each input is written at
/// its place relative to that box. None when there is no input.
pub fn merge_layout(images: &Vec<Placement>) -> (r: Option<MergeLayout>)
    requires
        placements_fit(images@),
    ensures
        r is None <==> images@.len() == 0,
        r matches Some(m) ==> {
            &&& is_union_box(images@, m.x as int, m.y as int, m.width as int, m.height as int)
            &&& m.offsets@.len() == images@.len()
            &&& forall|i: int|
                0 <= i < images@.len() ==> (#[trigger] m.offsets@[i]).0 == images@[i].x - m.x
                    && m.offsets@[i].1 == images@[i].y - m.y
        },
{
    if images.len() == 0 {
        return None;
    }
    let mut x: i64 = images[0].x;
    let mut y: i64 = images[0].y;
    let mut x_end: i64 = (images[0].x as i128 + images[0].width as i128) as i64;
    let mut y_end: i64 = (images[0].y as i128 + images[0].height as i128) as i64;
    let mut i: usize = 1;
    while i < images.len()
        invariant
            1 <= i <= images@.len(),
            placements_fit(images@),
            forall|k: int|
                0 <= k < i ==> x <= (#[trigger] images@[k]).x && y <= images@[k].y && right(
                    images@[k],
                ) <= x_end && bottom(images@[k]) <= y_end,
            exists|k: int| 0 <= k < i && (#[trigger] images@[k]).x == x,
            exists|k: int| 0 <= k < i && (#[trigger] images@[k]).y == y,
            exists|k: int| 0 <= k < i && right(#[trigger] images@[k]) == x_end,
            exists|k: int| 0 <= k < i && bottom(#[trigger] images@[k]) == y_end,
        decreases images@.len() - i,
    {
        let p = images[i];
        let p_right = (p.x as i128 + p.width as i128) as i64;
        let p_bottom = (p.y as i128 + p.height as i128) as i64;
        if p.x < x {
            x = p.x;
        }
        if p.y < y {
            y = p.y;
        }
        if p_right > x_end {
            x_end = p_right;
        }
        if p_bottom > y_end {
            y_end = p_bottom;
        }
        assert(images@[i as int] == p);
        i = i + 1;
    }
    let width = (x_end as i128 - x as i128) as u64;
    let height = (y_end as i128 - y as i128) as u64;
    let mut offsets: Vec<(u64, u64)> = Vec::new();
    let mut j: usize = 0;
    while j < images.len()
        invariant
            j <= images@.len(),
            forall|k: int|
                0 <= k < images@.len() ==> x <= (#[trigger] images@[k]).x && y <= images@[k].y,
            offsets@.len() == j,
            forall|k: int|
                0 <= k < j ==> (#[trigger] offsets@[k]).0 == images@[k].x - x && offsets@[k].1
                    == images@[k].y - y,
        decreases images@.len() - j,
    {
        let p = images[j];
        assert(images@[j as int] == p);
        offsets.push(((p.x as i128 - x as i128) as u64, (p.y as i128 - y as i128) as u64));
        j = j + 1;
    }
    Some(MergeLayout { x, y, width, height, offsets })
}

pub open spec fn in_rect(q: PixelRect, c: int, r: int) -> bool {
    q.min_px <= c < q.max_px && q.min_py <= r < q.max_py
}

/// Pixel `(c, r)` lies in one of the rectangles.
pub open spec fn covered(rects: Seq<PixelRect>, c: int, r: int) -> bool {
    exists|k: int| 0 <= k < rects.len() && in_rect(#[trigger] rects[k], c, r)
}

/// The place of a split's output in the source image's pixel grid.
pub open spec fn placement_of(p: SplitPlan) -> Placement {
    Placement { x: p.origin_px, y: p.origin_py, width: p.width, height: p.height }
}

/// Splitting an image and merging the pieces back gives it back: when the
/// pixel rectangles of the splits are not empty, lie inside the `width` by
/// `height` source image and cover it, the merge of the outputs has exactly the source's
/// extent, and every source pixel that a split read lands in the merged
/// image at its own column and row.
pub proof fn lemma_split_merge_round_trip(
    rects: Seq<PixelRect>,
    width: nat,
    height: nat,
    mx: int,
    my: int,
    mwidth: int,
    mheight: int,
)
    requires
        width <= i64::MAX,
        height <= i64::MAX,
        forall|k: int|
            0 <= k < rects.len() ==> 0 <= (#[trigger] rects[k]).min_px < rects[k].max_px <= width
                && 0 <= rects[k].min_py < rects[k].max_py <= height,
        forall|c: int, r: int| 0 <= c < width && 0 <= r < height ==> #[trigger] covered(rects, c, r),
        width > 0,
        height > 0,
        is_union_box(
            rects.map_values(|q: PixelRect| placement_of(spec_plan_split(q, width, height)->Some_0)),
            mx,
            my,
            mwidth,
            mheight,
        ),
    ensures
        mx == 0 && my == 0 && mwidth == width && mheight == height,
        forall|k: int|
            0 <= k < rects.len() && spec_plan_split(#[trigger] rects[k], width, height) is Some
                ==> ({
                let p = spec_plan_split(rects[k], width, height)->Some_0;
                &&& (p.origin_px - mx) + p.dst_x == p.src_x
                &&& (p.origin_py - my) + p.dst_y == p.src_y
            }),
{
    let s = rects.map_values(|q: PixelRect| placement_of(spec_plan_split(q, width, height)->Some_0));
    assert(covered(rects, 0, 0));
    assert(covered(rects, width - 1, height - 1));
    let k0 = choose|k: int| 0 <= k < rects.len() && in_rect(#[trigger] rects[k], 0, 0);
    let k1 = choose|k: int|
        0 <= k < rects.len() && in_rect(#[trigger] rects[k], width - 1, height - 1);
    assert(s[k0] == placement_of(spec_plan_split(rects[k0], width, height)->Some_0));
    assert(s[k1] == placement_of(spec_plan_split(rects[k1], width, height)->Some_0));
    assert forall|i: int| 0 <= i < s.len() implies 0 <= (#[trigger] s[i]).x && 0 <= s[i].y && right(
        s[i],
    ) <= width && bottom(s[i]) <= height by {
        assert(s[i] == placement_of(spec_plan_split(rects[i], width, height)->Some_0));
    }
    let ix = choose|i: int| 0 <= i < s.len() && (#[trigger] s[i]).x == mx;
    let iy = choose|i: int| 0 <= i < s.len() && (#[trigger] s[i]).y == my;
    let ir = choose|i: int| 0 <= i < s.len() && right(#[trigger] s[i]) == mx + mwidth;
    let ib = choose|i: int| 0 <= i < s.len() && bottom(#[trigger] s[i]) == my + mheight;
    assert(0 <= s[ix].x && 0 <= s[iy].y && right(s[ir]) <= width && bottom(s[ib]) <= height);
}

/// The destination after a block copy, as a whole.
pub open spec fn spec_copy(
    src: Seq<u8>,
    src_width: int,
    dst: Seq<u8>,
    dst_width: int,
    size: int,
    blk: Block,
) -> Seq<u8> {
    Seq::new(dst.len(), |i: int| copied_byte(src, src_width, dst, dst_width, size, blk, i))
}

/// The block that writes input `k` at its offset in the merged image.
pub open spec fn input_block(images: Seq<Placement>, offsets: Seq<(u64, u64)>, k: int) -> Block {
    Block {
        src_x: 0,
        src_y: 0,
        width: images[k].width as usize,
        height: images[k].height as usize,
        dst_x: offsets[k].0 as usize,
        dst_y: offsets[k].1 as usize,
    }
}

/// The merged band after the first `k` inputs are written over `base`, each
/// later input over the earlier ones.
pub open spec fn spec_merged(
    inputs: Seq<Seq<u8>>,
    images: Seq<Placement>,
    offsets: Seq<(u64, u64)>,
    width: int,
    size: int,
    base: Seq<u8>,
    k: nat,
) -> Seq<u8>
    decreases k,
{
    if k == 0 {
        base
    } else {
        spec_copy(
            inputs[k - 1],
            images[k - 1].width as int,
            spec_merged(inputs, images, offsets, width, size, base, (k - 1) as nat),
            width,
            size,
            input_block(images, offsets, k - 1),
        )
    }
}

/// One band of the merged image: it starts out holding `fill` in every
/// pixel, then each input band is written at its place, in order.
pub fn merge_band(
    inputs: &Vec<Vec<u8>>,
    images: &Vec<Placement>,
    layout: &MergeLayout,
    fill: &Vec<u8>,
) -> (r: Vec<u8>)
    requires
        fill@.len() > 0,
        inputs@.len() == images@.len(),
        is_union_box(
            images@,
            layout.x as int,
            layout.y as int,
            layout.width as int,
            layout.height as int,
        ),
        layout.offsets@.len() == images@.len(),
        forall|i: int|
            0 <= i < images@.len() ==> (#[trigger] layout.offsets@[i]).0 == images@[i].x - layout.x
                && layout.offsets@[i].1 == images@[i].y - layout.y,
        layout.width * layout.height * fill@.len() <= usize::MAX,
        layout.width <= usize::MAX,
        layout.height <= usize::MAX,
        forall|k: int|
            0 <= k < inputs@.len() ==> (#[trigger] inputs@[k])@.len() == images@[k].height
                * images@[k].width * fill@.len(),
    ensures
        r@ == spec_merged(
            inputs@.map_values(|b: Vec<u8>| b@),
            images@,
            layout.offsets@,
            layout.width as int,
            fill@.len() as int,
            Seq::new(
                (layout.width * layout.height * fill@.len()) as nat,
                |i: int| fill@[i % (fill@.len() as int)],
            ),
            inputs@.len(),
        ),
{
    let size = fill.len();
    let ghost views = inputs@.map_values(|b: Vec<u8>| b@);
    let ghost base = Seq::new(
        (layout.width * layout.height * size) as nat,
        |i: int| fill@[i % (size as int)],
    );
    proof {
        assert(layout.width * layout.height <= layout.width * layout.height * size) by (nonlinear_arith)
            requires
                size > 0,
        ;
        assert(layout.height * layout.width * size == layout.width * layout.height * size) by (nonlinear_arith);
    }
    let w = layout.width as usize;
    let h = layout.height as usize;
    let mut out = uniform_band(w * h, fill);
    assert(out@ =~= base);
    let mut k: usize = 0;
    while k < inputs.len()
        invariant
            k <= inputs@.len(),
            size == fill@.len(),
            size > 0,
            w == layout.width,
            h == layout.height,
            inputs@.len() == images@.len(),
            views == inputs@.map_values(|b: Vec<u8>| b@),
            is_union_box(
                images@,
                layout.x as int,
                layout.y as int,
                layout.width as int,
                layout.height as int,
            ),
            layout.offsets@.len() == images@.len(),
            forall|i: int|
                0 <= i < images@.len() ==> (#[trigger] layout.offsets@[i]).0 == images@[i].x
                    - layout.x && layout.offsets@[i].1 == images@[i].y - layout.y,
            forall|j: int|
                0 <= j < inputs@.len() ==> (#[trigger] inputs@[j])@.len() == images@[j].height
                    * images@[j].width * fill@.len(),
            out@.len() == h * w * size,
            out@ == spec_merged(
                views,
                images@,
                layout.offsets@,
                layout.width as int,
                size as int,
                base,
                k as nat,
            ),
        decreases inputs@.len() - k,
    {
        let p = images[k];
        let off = layout.offsets[k];
        assert(images@[k as int] == p);
        assert(layout.offsets@[k as int] == off);
        assert(views[k as int] == inputs@[k as int]@);
        proof {
            assert(p.x >= layout.x && p.y >= layout.y && right(p) <= layout.x + layout.width
                && bottom(p) <= layout.y + layout.height);
        }
        let blk = Block {
            src_x: 0,
            src_y: 0,
            width: p.width as usize,
            height: p.height as usize,
            dst_x: off.0 as usize,
            dst_y: off.1 as usize,
        };
        assert(blk == input_block(images@, layout.offsets@, k as int));
        let next = copy_block(&inputs[k], p.width as usize, p.height as usize, &out, w, h, size, blk);
        proof {
            assert(next@ =~= spec_copy(
                views[k as int],
                p.width as int,
                out@,
                layout.width as int,
                size as int,
                blk,
            ));
        }
        out = next;
        k = k + 1;
    }
    out
}

} // verus!
