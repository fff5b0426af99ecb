//! Pixel-wise work on bands held as bytes: which pixels hold no data,
//! how many hold data, and filling the holes of one image from another.
//!
//! A band of `n` pixels of `size` bytes each holds `n * size` bytes; the
//! sample of pixel `j` is the bytes `[j * size, (j + 1) * size)`.
use vstd::prelude::*;

use crate::split::{plan_split, spec_plan_split, PixelRect};

verus! {

/// The sample of pixel `j`.
pub open spec fn sample(data: Seq<u8>, size: nat, j: int) -> Seq<u8> {
    data.subrange(j * size, j * size + size)
}

/// Every band holds the no-data sample of its own at pixel `j`.
pub open spec fn is_hole(bands: Seq<Seq<u8>>, no_data: Seq<Seq<u8>>, size: nat, j: int) -> bool {
    forall|k: int| 0 <= k < bands.len() ==> sample(#[trigger] bands[k], size, j) == no_data[k]
}

/// Bands of `npix` pixels of `size` bytes, with a no-data sample for each.
pub open spec fn bands_fit(bands: Seq<Seq<u8>>, no_data: Seq<Seq<u8>>, npix: nat, size: nat) -> bool {
    &&& size > 0
    &&& npix * size <= usize::MAX
    &&& no_data.len() == bands.len()
    &&& forall|k: int| 0 <= k < bands.len() ==> (#[trigger] bands[k]).len() == npix * size
    &&& forall|k: int| 0 <= k < no_data.len() ==> (#[trigger] no_data[k]).len() == size
}

/// The number of `false` entries.
pub open spec fn count_valid(mask: Seq<bool>) -> nat
    decreases mask.len(),
{
    if mask.len() == 0 {
        0
    } else {
        count_valid(mask.drop_last()) + if mask.last() {
            0nat
        } else {
            1nat
        }
    }
}

pub open spec fn band_views(bands: Seq<Vec<u8>>) -> Seq<Seq<u8>> {
    bands.map_values(|b: Vec<u8>| b@)
}

proof fn lemma_sample_in_band(len: nat, npix: nat, size: nat, j: int)
    requires
        len == npix * size,
        0 <= j < npix,
    ensures
        0 <= j * size,
        j * size + size <= len,
{
    assert(0 <= j * size) by (nonlinear_arith)
        requires
            0 <= j,
            size >= 0,
    ;
    assert(j * size + size <= npix * size) by (nonlinear_arith)
        requires
            j + 1 <= npix,
            size >= 0,
    ;
}

/// Whether the bytes at `start` equal `expected`.
fn sample_equals(data: &Vec<u8>, start: usize, expected: &Vec<u8>) -> (r: bool)
    requires
        start + expected@.len() <= data@.len(),
    ensures
        r == (data@.subrange(start as int, start + expected@.len()) == expected@),
{
    let n = data.len();
    let mut i: usize = 0;
    while i < expected.len()
        invariant
            i <= expected@.len(),
            n == data@.len(),
            start + expected@.len() <= data@.len(),
            data@.subrange(start as int, start + i) == expected@.subrange(0, i as int),
        decreases expected@.len() - i,
    {
        if data[start + i] != expected[i] {
            assert(data@.subrange(start as int, start + expected@.len())[i as int] != expected@[i as int]);
            return false;
        }
        i = i + 1;
        assert(data@.subrange(start as int, start + i) =~= expected@.subrange(0, i as int));
    }
    assert(expected@.subrange(0, i as int) =~= expected@);
    true
}

/// For each of the `npix` pixels, whether every band holds its no-data
/// sample there.
pub fn no_data_mask(bands: &Vec<Vec<u8>>, no_data: &Vec<Vec<u8>>, npix: usize, size: usize) -> (r:
    Vec<bool>)
    requires
        bands_fit(band_views(bands@), band_views(no_data@), npix as nat, size as nat),
    ensures
        r@.len() == npix,
        forall|j: int|
            0 <= j < npix ==> r@[j] == is_hole(
                band_views(bands@),
                band_views(no_data@),
                size as nat,
                j,
            ),
{
    let ghost bv = band_views(bands@);
    let ghost nv = band_views(no_data@);
    let mut r: Vec<bool> = Vec::new();
    let mut j: usize = 0;
    while j < npix
        invariant
            j <= npix,
            bv == band_views(bands@),
            nv == band_views(no_data@),
            bands_fit(bv, nv, npix as nat, size as nat),
            r@.len() == j,
            forall|t: int| 0 <= t < j ==> r@[t] == is_hole(bv, nv, size as nat, t),
        decreases npix - j,
    {
        proof {
            lemma_sample_in_band((npix * size) as nat, npix as nat, size as nat, j as int);
        }
        let start: usize = j * size;
        let mut hole = true;
        let mut k: usize = 0;
        while k < bands.len()
            invariant
                k <= bands@.len(),
                j < npix,
                start == j * size,
                start + size <= npix * size,
                bv == band_views(bands@),
                nv == band_views(no_data@),
                bands_fit(bv, nv, npix as nat, size as nat),
                hole == (forall|m: int| 0 <= m < k ==> sample(#[trigger] bv[m], size as nat, j as int) == nv[m]),
            decreases bands@.len() - k,
        {
            assert(bv[k as int] == bands@[k as int]@);
            assert(nv[k as int] == no_data@[k as int]@);
            let same = sample_equals(&bands[k], start, &no_data[k]);
            if !same {
                hole = false;
            }
            k = k + 1;
        }
        r.push(hole);
        j = j + 1;
    }
    r
}

/// The number of pixels that hold data, and the number of pixels.
pub fn coverage_counts(mask: &Vec<bool>) -> (r: (usize, usize))
    ensures
        r.0 == count_valid(mask@),
        r.1 == mask@.len(),
{
    let mut valid: usize = 0;
    let mut i: usize = 0;
    while i < mask.len()
        invariant
            i <= mask@.len(),
            valid == count_valid(mask@.take(i as int)),
            valid <= i,
        decreases mask@.len() - i,
    {
        assert(mask@.take(i + 1).drop_last() =~= mask@.take(i as int));
        if !mask[i] {
            valid = valid + 1;
        }
        i = i + 1;
    }
    assert(mask@.take(i as int) =~= mask@);
    (valid, mask.len())
}

/// The byte `i` of a band after filling: taken from `fill` where the pixel
/// is a hole and `fill` reaches that pixel, else kept.
pub open spec fn filled_byte(primary: Seq<u8>, fill: Seq<u8>, mask: Seq<bool>, size: nat, i: int) -> u8 {
    if mask[i / (size as int)] && (i / (size as int)) < fill.len() / size {
        fill[i]
    } else {
        primary[i]
    }
}

/// Fills the holes of one band from the same band of another image.
pub fn fill_band(primary: &Vec<u8>, fill: &Vec<u8>, mask: &Vec<bool>, size: usize) -> (r: Vec<u8>)
    requires
        size > 0,
        primary@.len() == mask@.len() * size,
    ensures
        r@.len() == primary@.len(),
        forall|i: int|
            0 <= i < r@.len() ==> r@[i] == filled_byte(primary@, fill@, mask@, size as nat, i),
{
    let mut r: Vec<u8> = Vec::new();
    let fill_pixels = fill.len() / size;
    let mut i: usize = 0;
    while i < primary.len()
        invariant
            size > 0,
            i <= primary@.len(),
            primary@.len() == mask@.len() * size,
            fill_pixels as int == fill@.len() as int / (size as int),
            r@.len() == i,
            forall|t: int|
                0 <= t < i ==> r@[t] == filled_byte(primary@, fill@, mask@, size as nat, t),
        decreases primary@.len() - i,
    {
        let j = i / size;
        let ghost sz: int = size as int;
        let ghost fl: int = fill@.len() as int;
        let ghost ii: int = i as int;
        let ghost jj: int = j as int;
        let ghost ml: int = mask@.len() as int;
        proof {
            assert(jj == ii / sz);
            vstd::arithmetic::div_mod::lemma_fundamental_div_mod(ii, sz);
            vstd::arithmetic::div_mod::lemma_mod_bound(ii, sz);
            assert(jj < ml) by (nonlinear_arith)
                requires
                    ii == sz * jj + ii % sz,
                    0 <= ii % sz,
                    ii < ml * sz,
                    sz > 0,
            ;
        }
        if mask[j] && j < fill_pixels {
            proof {
                vstd::arithmetic::div_mod::lemma_fundamental_div_mod(fl, sz);
                vstd::arithmetic::div_mod::lemma_mod_bound(fl, sz);
                assert(ii < fl) by (nonlinear_arith)
                    requires
                        ii == sz * jj + ii % sz,
                        ii % sz < sz,
                        fl == sz * (fl / sz) + fl % sz,
                        0 <= fl % sz,
                        jj + 1 <= fl / sz,
                        sz > 0,
                ;
            }
            r.push(fill[i]);
        } else {
            r.push(primary[i]);
        }
        i = i + 1;
    }
    r
}

/// A block of pixels copied from one band to another: `width` by `height`
/// pixels from column `src_x`, row `src_y` of the source to column `dst_x`,
/// row `dst_y` of the destination.
#[derive(Clone, Copy, Debug, PartialEq, Eq, Structural)]
pub struct Block {
    pub src_x: usize,
    pub src_y: usize,
    pub width: usize,
    pub height: usize,
    pub dst_x: usize,
    pub dst_y: usize,
}

/// The block fits a `src_width` by `src_height` source and a `dst_width` by
/// `dst_height` destination.
pub open spec fn block_fits(
    blk: Block,
    src_width: nat,
    src_height: nat,
    dst_width: nat,
    dst_height: nat,
) -> bool {
    &&& blk.src_x + blk.width <= src_width
    &&& blk.src_y + blk.height <= src_height
    &&& blk.dst_x + blk.width <= dst_width
    &&& blk.dst_y + blk.height <= dst_height
}

/// Byte `i` of the destination after the copy: inside the block it is the
/// matching byte of the source, elsewhere it is kept.
pub open spec fn copied_byte(
    src: Seq<u8>,
    src_width: int,
    dst: Seq<u8>,
    dst_width: int,
    size: int,
    blk: Block,
    i: int,
) -> u8 {
    let p = i / size;
    let y = p / dst_width;
    let x = p % dst_width;
    let b = i % size;
    if blk.dst_y <= y < blk.dst_y + blk.height && blk.dst_x <= x < blk.dst_x + blk.width {
        src[((blk.src_y + y - blk.dst_y) * src_width + (blk.src_x + x - blk.dst_x)) * size + b]
    } else {
        dst[i]
    }
}

proof fn lemma_pixel_index(yy: int, xx: int, b: int, w: int, h: int, s: int)
    requires
        0 <= yy < h,
        0 <= xx < w,
        0 <= b < s,
    ensures
        0 <= yy * w,
        0 <= yy * w + xx < h * w,
        0 <= (yy * w + xx) * s,
        0 <= (yy * w + xx) * s + b < h * w * s,
        h * w <= h * w * s,
{
    assert(h * w <= h * w * s) by (nonlinear_arith)
        requires
            0 <= yy < h,
            0 <= xx < w,
            0 <= b < s,
    ;
    assert(0 <= yy * w) by (nonlinear_arith)
        requires
            0 <= yy,
            0 <= xx < w,
    ;
    assert(0 <= yy * w + xx < h * w) by (nonlinear_arith)
        requires
            0 <= yy < h,
            0 <= xx < w,
    ;
    assert(0 <= (yy * w + xx) * s + b < h * w * s) by (nonlinear_arith)
        requires
            0 <= yy * w + xx < h * w,
            0 <= b < s,
    ;
    assert(0 <= (yy * w + xx) * s) by (nonlinear_arith)
        requires
            0 <= yy * w + xx,
            0 <= b < s,
    ;
}

/// The destination band with a block of the source band copied into it.
pub fn copy_block(
    src: &Vec<u8>,
    src_width: usize,
    src_height: usize,
    dst: &Vec<u8>,
    dst_width: usize,
    dst_height: usize,
    size: usize,
    blk: Block,
) -> (r: Vec<u8>)
    requires
        size > 0,
        src@.len() == src_height * src_width * size,
        dst@.len() == dst_height * dst_width * size,
        block_fits(blk, src_width as nat, src_height as nat, dst_width as nat, dst_height as nat),
    ensures
        r@.len() == dst@.len(),
        forall|i: int|
            0 <= i < r@.len() ==> r@[i] == copied_byte(
                src@,
                src_width as int,
                dst@,
                dst_width as int,
                size as int,
                blk,
                i,
            ),
{
    let src_len = src.len();
    let mut r: Vec<u8> = Vec::new();
    let mut i: usize = 0;
    while i < dst.len()
        invariant
            src_len == src@.len(),
            size > 0,
            i <= dst@.len(),
            src@.len() == src_height * src_width * size,
            dst@.len() == dst_height * dst_width * size,
            block_fits(blk, src_width as nat, src_height as nat, dst_width as nat, dst_height as nat),
            r@.len() == i,
            forall|t: int|
                0 <= t < i ==> r@[t] == copied_byte(
                    src@,
                    src_width as int,
                    dst@,
                    dst_width as int,
                    size as int,
                    blk,
                    t,
                ),
        decreases dst@.len() - i,
    {
        let p = i / size;
        proof {
            assert(dst_width > 0) by (nonlinear_arith)
                requires
                    i < dst_height * dst_width * size,
            ;
        }
        let y = p / dst_width;
        let x = p % dst_width;
        let b = i % size;
        if blk.dst_y <= y && y < blk.dst_y + blk.height && blk.dst_x <= x && x < blk.dst_x
            + blk.width {
            let yy = blk.src_y + (y - blk.dst_y);
            let xx = blk.src_x + (x - blk.dst_x);
            proof {
                vstd::arithmetic::div_mod::lemma_mod_bound(i as int, size as int);
                lemma_pixel_index(
                    yy as int,
                    xx as int,
                    b as int,
                    src_width as int,
                    src_height as int,
                    size as int,
                );
                assert(src_height * src_width * size == src_height as int * src_width as int
                    * size as int);
            }
            r.push(src[(yy * src_width + xx) * size + b]);
        } else {
            r.push(dst[i]);
        }
        i = i + 1;
    }
    r
}

/// A band of `npix` pixels that all hold the sample `value`.
pub fn uniform_band(npix: usize, value: &Vec<u8>) -> (r: Vec<u8>)
    requires
        value@.len() > 0,
        npix * value@.len() <= usize::MAX,
    ensures
        r@.len() == npix * value@.len(),
        forall|i: int| 0 <= i < r@.len() ==> r@[i] == value@[i % value@.len() as int],
{
    let size = value.len();
    let mut r: Vec<u8> = Vec::new();
    let mut j: usize = 0;
    while j < npix
        invariant
            j <= npix,
            size == value@.len(),
            size > 0,
            npix * size <= usize::MAX,
            r@.len() == j * size,
            forall|i: int| 0 <= i < r@.len() ==> r@[i] == value@[i % size as int],
        decreases npix - j,
    {
        proof {
            assert(j * size + size <= npix * size) by (nonlinear_arith)
                requires
                    j < npix,
                    size > 0,
            ;
        }
        let mut b: usize = 0;
        while b < size
            invariant
                j < npix,
                b <= size,
                size == value@.len(),
                size > 0,
                j * size + size <= npix * size,
                npix * size <= usize::MAX,
                r@.len() == j * size + b,
                forall|i: int| 0 <= i < r@.len() ==> r@[i] == value@[i % size as int],
            decreases size - b,
        {
            proof {
                vstd::arithmetic::div_mod::lemma_fundamental_div_mod_converse(
                    (j * size + b) as int,
                    size as int,
                    j as int,
                    b as int,
                );
            }
            r.push(value[b]);
            b = b + 1;
        }
        proof {
            assert(j * size + size == (j + 1) * size) by (nonlinear_arith);
        }
        j = j + 1;
    }
    r
}

/// The band of the split of a source band along a pixel rectangle: the
/// rectangle's pixels, taken from the source where the rectangle meets it
/// and holding `fill` elsewhere; none when the rectangle misses the source.
pub fn carve_band(
    src: &Vec<u8>,
    src_width: usize,
    src_height: usize,
    rect: PixelRect,
    fill: &Vec<u8>,
) -> (r: Option<Vec<u8>>)
    requires
        fill@.len() > 0,
        src@.len() == src_height * src_width * fill@.len(),
        src_width <= i64::MAX,
        src_height <= i64::MAX,
        rect.min_px <= rect.max_px,
        rect.min_py <= rect.max_py,
        (rect.max_px - rect.min_px) * (rect.max_py - rect.min_py) * fill@.len() <= usize::MAX,
    ensures
        r is None <==> spec_plan_split(rect, src_width as nat, src_height as nat) is None,
        r matches Some(band) ==> {
            let p = spec_plan_split(rect, src_width as nat, src_height as nat)->Some_0;
            let size = fill@.len() as int;
            &&& band@.len() == p.width * p.height * size
            &&& forall|i: int|
                0 <= i < band@.len() ==> band@[i] == copied_byte(
                    src@,
                    src_width as int,
                    Seq::new((p.width * p.height * size) as nat, |k: int| fill@[k % size]),
                    p.width as int,
                    size,
                    Block {
                        src_x: p.src_x as usize,
                        src_y: p.src_y as usize,
                        width: p.read_width as usize,
                        height: p.read_height as usize,
                        dst_x: p.dst_x as usize,
                        dst_y: p.dst_y as usize,
                    },
                    i,
                )
        },
{
    let plan = match plan_split(rect, src_width as u64, src_height as u64) {
        Some(p) => p,
        None => {
            return None;
        },
    };
    proof {
        crate::split::lemma_plan_keeps_pixels(rect, src_width as nat, src_height as nat);
    }
    let size = fill.len();
    proof {
        let pw = plan.width as int;
        let ph = plan.height as int;
        let sz = size as int;
        assert(pw == rect.max_px - rect.min_px);
        assert(ph == rect.max_py - rect.min_py);
        assert(pw * ph * sz <= usize::MAX);
        assert(pw <= pw * ph * sz && ph <= pw * ph * sz && pw * ph <= pw * ph * sz) by (nonlinear_arith)
            requires
                pw >= 1,
                ph >= 1,
                sz >= 1,
        ;
    }
    let w = plan.width as usize;
    let h = plan.height as usize;
    proof {
        assert(h * w * size == w * h * size) by (nonlinear_arith);
    }
    let base = uniform_band(w * h, fill);
    let ghost base_view = Seq::new((w * h * size) as nat, |k: int| fill@[k % size as int]);
    assert(base@ =~= base_view);
    let blk = Block {
        src_x: plan.src_x as usize,
        src_y: plan.src_y as usize,
        width: plan.read_width as usize,
        height: plan.read_height as usize,
        dst_x: plan.dst_x as usize,
        dst_y: plan.dst_y as usize,
    };
    Some(copy_block(src, src_width, src_height, &base, w, h, size, blk))
}

/// The holes of bands of `npix` pixels.
pub open spec fn spec_mask(bands: Seq<Seq<u8>>, no_data: Seq<Seq<u8>>, npix: nat, size: nat) -> Seq<
    bool,
> {
    Seq::new(npix, |j: int| is_hole(bands, no_data, size, j))
}

/// Fills the pixels where every band of `primary` holds its no-data sample
/// from the same pixels of `fill`, band by band.
pub fn fill_bands(
    primary: &Vec<Vec<u8>>,
    fill: &Vec<Vec<u8>>,
    no_data: &Vec<Vec<u8>>,
    npix: usize,
    size: usize,
) -> (r: Vec<Vec<u8>>)
    requires
        bands_fit(band_views(primary@), band_views(no_data@), npix as nat, size as nat),
        fill@.len() == primary@.len(),
    ensures
        r@.len() == primary@.len(),
        forall|k: int|
            0 <= k < r@.len() ==> (#[trigger] r@[k])@ == Seq::new(
                primary@[k]@.len(),
                |i: int|
                    filled_byte(
                        primary@[k]@,
                        fill@[k]@,
                        spec_mask(
                            band_views(primary@),
                            band_views(no_data@),
                            npix as nat,
                            size as nat,
                        ),
                        size as nat,
                        i,
                    ),
            ),
{
    let mask = no_data_mask(primary, no_data, npix, size);
    let ghost m = spec_mask(band_views(primary@), band_views(no_data@), npix as nat, size as nat);
    assert(mask@ =~= m);
    let mut r: Vec<Vec<u8>> = Vec::new();
    let mut k: usize = 0;
    while k < primary.len()
        invariant
            k <= primary@.len(),
            fill@.len() == primary@.len(),
            mask@ == m,
            m.len() == npix,
            bands_fit(band_views(primary@), band_views(no_data@), npix as nat, size as nat),
            r@.len() == k,
            forall|q: int|
                0 <= q < k ==> (#[trigger] r@[q])@ == Seq::new(
                    primary@[q]@.len(),
                    |i: int| filled_byte(primary@[q]@, fill@[q]@, m, size as nat, i),
                ),
        decreases primary@.len() - k,
    {
        assert(band_views(primary@)[k as int] == primary@[k as int]@);
        let band = fill_band(&primary[k], &fill[k], &mask, size);
        assert(band@ =~= Seq::new(
            primary@[k as int]@.len(),
            |i: int| filled_byte(primary@[k as int]@, fill@[k as int]@, m, size as nat, i),
        ));
        r.push(band);
        k = k + 1;
    }
    r
}

} // verus!
