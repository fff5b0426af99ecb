//! The binary form of an image: big-endian, a header then each band.
//!
//! u32 width, u32 height, six f64 geo-transform coefficients (kept here as
//! their bit patterns), u32 projection length, the projection's UTF-8 bytes,
//! u32 pixel-type tag, u8 no-data flag, the f64 no-data value when the flag
//! is not zero, u8 band count; then for each band its u32 pixel-type tag and
//! its samples, row-major, each in its big-endian width.
use vstd::prelude::*;
use vstd::utf8::{decode_utf8, encode_utf8, valid_utf8};

use crate::bytes::{
    be_u32_bytes,
    be_u64_bytes,
    lemma_u32_round_trip,
    lemma_u64_round_trip,
    u32_from_be,
    u64_from_be,
};
use crate::wrappers::{read_be_u32, read_be_u64, string_from_utf8, write_be_u32, write_be_u64};

verus! {

/// The pixel types that an image can hold.
#[derive(Clone, Copy, Debug, PartialEq, Eq, Structural)]
pub enum PixelType {
    U8,
    I16,
    U16,
    F32,
}

/// Why bytes are not an image.
#[derive(Clone, Copy, Debug, PartialEq, Eq, Structural)]
pub enum SerializeError {
    /// The bytes end before the image does.
    Truncated,
    /// The projection is not well-formed UTF-8.
    InvalidUtf8,
    /// A pixel-type tag names no supported type.
    UnknownPixelType,
}

/// The pixel type of a tag of the raster library's enumeration.
pub open spec fn pixel_type_of(tag: u32) -> Option<PixelType> {
    if tag == 1 {
        Some(PixelType::U8)
    } else if tag == 2 {
        Some(PixelType::U16)
    } else if tag == 3 {
        Some(PixelType::I16)
    } else if tag == 6 {
        Some(PixelType::F32)
    } else {
        None
    }
}

impl PixelType {
    /// The tag of the type in the raster library's enumeration.
    pub open spec fn spec_tag(self) -> u32 {
        match self {
            PixelType::U8 => 1,
            PixelType::U16 => 2,
            PixelType::I16 => 3,
            PixelType::F32 => 6,
        }
    }

    /// Bytes per sample.
    pub open spec fn spec_size(self) -> nat {
        match self {
            PixelType::U8 => 1,
            PixelType::I16 => 2,
            PixelType::U16 => 2,
            PixelType::F32 => 4,
        }
    }

    pub fn tag(&self) -> (r: u32)
        ensures
            r == self.spec_tag(),
    {
        match self {
            PixelType::U8 => 1,
            PixelType::U16 => 2,
            PixelType::I16 => 3,
            PixelType::F32 => 6,
        }
    }

    pub fn size(&self) -> (r: u64)
        ensures
            r == self.spec_size(),
    {
        match self {
            PixelType::U8 => 1,
            PixelType::I16 => 2,
            PixelType::U16 => 2,
            PixelType::F32 => 4,
        }
    }

    pub fn from_tag(tag: u32) -> (r: Option<PixelType>)
        ensures
            r == pixel_type_of(tag),
    {
        if tag == 1 {
            Some(PixelType::U8)
        } else if tag == 2 {
            Some(PixelType::U16)
        } else if tag == 3 {
            Some(PixelType::I16)
        } else if tag == 6 {
            Some(PixelType::F32)
        } else {
            None
        }
    }
}

/// One band: its pixel type and its samples, row-major, each sample in its
/// big-endian bytes.
#[derive(Debug)]
pub struct Band {
    pub pixel_type: PixelType,
    pub data: Vec<u8>,
}

/// An image held in memory.
#[derive(Debug)]
pub struct RasterImage {
    pub width: u32,
    pub height: u32,
    /// The bit patterns of the six f64 geo-transform coefficients.
    pub geo_transform: Vec<u64>,
    /// The projection as well-known text.
    pub projection: String,
    pub pixel_type: PixelType,
    /// The bit pattern of the f64 no-data value, if any.
    pub no_data: Option<u64>,
    pub bands: Vec<Band>,
}

pub type BandView = (PixelType, Seq<u8>);

pub struct ImageView {
    pub width: u32,
    pub height: u32,
    pub geo_transform: Seq<u64>,
    pub projection: Seq<char>,
    pub pixel_type: PixelType,
    pub no_data: Option<u64>,
    pub bands: Seq<BandView>,
}

pub open spec fn band_view(b: Band) -> BandView {
    (b.pixel_type, b.data@)
}

impl View for RasterImage {
    type V = ImageView;

    open spec fn view(&self) -> ImageView {
        ImageView {
            width: self.width,
            height: self.height,
            geo_transform: self.geo_transform@,
            projection: self.projection@,
            pixel_type: self.pixel_type,
            no_data: self.no_data,
            bands: self.bands@.map_values(|b: Band| band_view(b)),
        }
    }
}

/// An image that the binary form can hold.
pub open spec fn well_formed(img: ImageView) -> bool {
    &&& img.geo_transform.len() == 6
    &&& encode_utf8(img.projection).len() <= u32::MAX
    &&& img.bands.len() <= 255
    &&& forall|i: int|
        0 <= i < img.bands.len() ==> (#[trigger] img.bands[i]).1.len() == img.width * img.height
            * img.bands[i].0.spec_size()
}

pub open spec fn encode_bands(bands: Seq<BandView>) -> Seq<u8>
    decreases bands.len(),
{
    if bands.len() == 0 {
        Seq::empty()
    } else {
        be_u32_bytes(bands[0].0.spec_tag()) + bands[0].1 + encode_bands(bands.drop_first())
    }
}

pub open spec fn encode_no_data(no_data: Option<u64>) -> Seq<u8> {
    match no_data {
        None => seq![0u8],
        Some(v) => seq![1u8] + be_u64_bytes(v),
    }
}

/// Width, height, geo-transform and projection length: 60 bytes.
pub open spec fn encode_fixed(img: ImageView) -> Seq<u8> {
    be_u32_bytes(img.width) + be_u32_bytes(img.height) + encode_transform(img.geo_transform)
        + be_u32_bytes(encode_utf8(img.projection).len() as u32)
}

pub open spec fn encode_transform(g: Seq<u64>) -> Seq<u8> {
    be_u64_bytes(g[0]) + be_u64_bytes(g[1]) + be_u64_bytes(g[2]) + be_u64_bytes(g[3])
        + be_u64_bytes(g[4]) + be_u64_bytes(g[5])
}

/// Pixel type, no-data value and band count.
pub open spec fn encode_tail(img: ImageView) -> Seq<u8> {
    be_u32_bytes(img.pixel_type.spec_tag()) + encode_no_data(img.no_data) + seq![
        img.bands.len() as u8,
    ]
}

pub open spec fn encode_header(img: ImageView) -> Seq<u8> {
    encode_fixed(img) + encode_utf8(img.projection) + encode_tail(img)
}

/// The binary form of an image.
pub open spec fn spec_write(img: ImageView) -> Seq<u8> {
    encode_header(img) + encode_bands(img.bands)
}

pub open spec fn u32_at(b: Seq<u8>, pos: int) -> u32 {
    u32_from_be(b[pos], b[pos + 1], b[pos + 2], b[pos + 3])
}

pub open spec fn u64_at(b: Seq<u8>, pos: int) -> u64 {
    u64_from_be(b.subrange(pos, pos + 8))
}

/// The `n` bands of `npix` pixels that start at `pos`.
pub open spec fn spec_read_bands(b: Seq<u8>, pos: int, n: nat, npix: nat) -> Result<
    Seq<BandView>,
    SerializeError,
>
    decreases n,
{
    if n == 0 {
        Ok(Seq::empty())
    } else if pos + 4 > b.len() {
        Err(SerializeError::Truncated)
    } else {
        match pixel_type_of(u32_at(b, pos)) {
            None => Err(SerializeError::UnknownPixelType),
            Some(t) => {
                let end = pos + 4 + npix * t.spec_size();
                if end > b.len() {
                    Err(SerializeError::Truncated)
                } else {
                    match spec_read_bands(b, end, (n - 1) as nat, npix) {
                        Ok(rest) => Ok(seq![(t, b.subrange(pos + 4, end))] + rest),
                        Err(e) => Err(e),
                    }
                }
            },
        }
    }
}

/// The image whose binary form starts the bytes `b`, or why there is none.
pub open spec fn spec_read(b: Seq<u8>) -> Result<ImageView, SerializeError> {
    if b.len() < 60 {
        Err(SerializeError::Truncated)
    } else {
        let p = 60 + u32_at(b, 56);
        if b.len() < p {
            Err(SerializeError::Truncated)
        } else if !valid_utf8(b.subrange(60, p)) {
            Err(SerializeError::InvalidUtf8)
        } else if b.len() < p + 4 {
            Err(SerializeError::Truncated)
        } else {
            match pixel_type_of(u32_at(b, p)) {
                None => Err(SerializeError::UnknownPixelType),
                Some(t) => {
                    if b.len() < p + 5 {
                        Err(SerializeError::Truncated)
                    } else {
                        let flag = b[p + 4];
                        let q = if flag == 0 { p + 5 } else { p + 13 };
                        if b.len() < q + 1 {
                            Err(SerializeError::Truncated)
                        } else {
                            let w = u32_at(b, 0);
                            let h = u32_at(b, 4);
                            match spec_read_bands(b, q + 1, b[q] as nat, (w * h) as nat) {
                                Ok(bands) => Ok(
                                    ImageView {
                                        width: w,
                                        height: h,
                                        geo_transform: Seq::new(6, |i: int| u64_at(b, 8 + 8 * i)),
                                        projection: decode_utf8(b.subrange(60, p)),
                                        pixel_type: t,
                                        no_data: if flag == 0 {
                                            None
                                        } else {
                                            Some(u64_at(b, p + 5))
                                        },
                                        bands,
                                    },
                                ),
                                Err(e) => Err(e),
                            }
                        }
                    }
                },
            }
        }
    }
}

pub open spec fn prepend_bands(acc: Seq<BandView>, r: Result<Seq<BandView>, SerializeError>) -> Result<
    Seq<BandView>,
    SerializeError,
> {
    match r {
        Ok(s) => Ok(acc + s),
        Err(e) => Err(e),
    }
}

/// The bytes `b[start..end]`.
fn copy_bytes(b: &[u8], start: usize, end: usize) -> (r: Vec<u8>)
    requires
        start <= end <= b@.len(),
    ensures
        r@ == b@.subrange(start as int, end as int),
{
    let mut r: Vec<u8> = Vec::new();
    let mut i = start;
    while i < end
        invariant
            start <= i <= end <= b@.len(),
            r@ == b@.subrange(start as int, i as int),
        decreases end - i,
    {
        r.push(b[i]);
        i = i + 1;
        assert(r@ =~= b@.subrange(start as int, i as int));
    }
    r
}

/// Appends the bytes `b` to `out`.
fn append_bytes(out: &mut Vec<u8>, b: &[u8])
    ensures
        final(out)@ == old(out)@ + b@,
{
    let ghost start = out@;
    let mut i: usize = 0;
    while i < b.len()
        invariant
            i <= b@.len(),
            out@ == start + b@.subrange(0, i as int),
        decreases b@.len() - i,
    {
        out.push(b[i]);
        i = i + 1;
        assert(out@ =~= start + b@.subrange(0, i as int));
    }
    assert(b@.subrange(0, b@.len() as int) =~= b@);
}

/// Reads the image whose binary form starts the bytes; fails when the bytes
/// end early, when the projection is not UTF-8, or on an unknown pixel type.
pub fn read(bytes: &[u8]) -> (r: Result<RasterImage, SerializeError>)
    ensures
        match r {
            Ok(img) => spec_read(bytes@) == Ok::<ImageView, SerializeError>(img@),
            Err(e) => spec_read(bytes@) == Err::<ImageView, SerializeError>(e),
        },
{
    let ghost b = bytes@;
    let len = bytes.len();
    if len < 60 {
        return Err(SerializeError::Truncated);
    }
    let width = read_be_u32(bytes, 0);
    let height = read_be_u32(bytes, 4);
    let mut geo_transform: Vec<u64> = Vec::new();
    let mut i: usize = 0;
    while i < 6
        invariant
            i <= 6,
            len == b.len(),
            b == bytes@,
            len >= 60,
            geo_transform@ == Seq::new(i as nat, |k: int| u64_at(b, 8 + 8 * k)),
        decreases 6 - i,
    {
        let v = read_be_u64(bytes, 8 + 8 * i);
        geo_transform.push(v);
        i = i + 1;
        assert(geo_transform@ =~= Seq::new(i as nat, |k: int| u64_at(b, 8 + 8 * k)));
    }
    let proj_len = read_be_u32(bytes, 56);
    if len - 60 < proj_len as usize {
        return Err(SerializeError::Truncated);
    }
    let p: usize = 60 + proj_len as usize;
    let proj_bytes = copy_bytes(bytes, 60, p);
    let projection = match string_from_utf8(proj_bytes) {
        Some(s) => s,
        None => {
            return Err(SerializeError::InvalidUtf8);
        },
    };
    if len - p < 4 {
        return Err(SerializeError::Truncated);
    }
    let pixel_type = match PixelType::from_tag(read_be_u32(bytes, p)) {
        Some(t) => t,
        None => {
            return Err(SerializeError::UnknownPixelType);
        },
    };
    if len - p < 5 {
        return Err(SerializeError::Truncated);
    }
    let flag = bytes[p + 4];
    let header_rest: usize = if flag == 0 {
        5
    } else {
        13
    };
    if len - p < header_rest + 1 {
        return Err(SerializeError::Truncated);
    }
    let q: usize = p + header_rest;
    let no_data = if flag == 0 {
        None
    } else {
        Some(read_be_u64(bytes, p + 5))
    };
    let count = bytes[q];
    proof {
        assert(width as nat * height as nat <= u64::MAX) by (nonlinear_arith)
            requires
                width <= u32::MAX,
                height <= u32::MAX,
        ;
    }
    let npix: u128 = width as u128 * height as u128;
    let ghost npix_n: nat = (width * height) as nat;
    let ghost view_of = |bands: Seq<BandView>|
        ImageView {
            width,
            height,
            geo_transform: geo_transform@,
            projection: projection@,
            pixel_type,
            no_data,
            bands,
        };
    assert(geo_transform@ =~= Seq::new(6, |k: int| u64_at(b, 8 + 8 * k)));
    assert(spec_read(b) == match spec_read_bands(b, q + 1, count as nat, npix_n) {
        Ok(v) => Ok(view_of(v)),
        Err(e) => Err(e),
    });
    let mut bands: Vec<Band> = Vec::new();
    let mut pos: usize = q + 1;
    let mut n: u8 = 0;
    while n < count
        invariant
            n <= count,
            len == b.len(),
            b == bytes@,
            q + 1 <= pos <= len,
            npix == npix_n,
            npix_n == width as nat * height as nat,
            npix_n <= u64::MAX,
            spec_read(b) == match spec_read_bands(b, q + 1, count as nat, npix_n) {
                Ok(v) => Ok(view_of(v)),
                Err(e) => Err(e),
            },
            spec_read_bands(b, q + 1, count as nat, npix_n) == prepend_bands(
                bands@.map_values(|x: Band| band_view(x)),
                spec_read_bands(b, pos as int, (count - n) as nat, npix_n),
            ),
        decreases count - n,
    {
        if len - pos < 4 {
            return Err(SerializeError::Truncated);
        }
        let t = match PixelType::from_tag(read_be_u32(bytes, pos)) {
            Some(t) => t,
            None => {
                return Err(SerializeError::UnknownPixelType);
            },
        };
        proof {
            assert(npix * t.spec_size() <= u64::MAX * 4) by (nonlinear_arith)
                requires
                    npix <= u64::MAX,
                    t.spec_size() <= 4,
            ;
        }
        let size: u128 = npix * t.size() as u128;
        if size > (len - pos - 4) as u128 {
            return Err(SerializeError::Truncated);
        }
        let end: usize = pos + 4 + size as usize;
        let data = copy_bytes(bytes, pos + 4, end);
        let ghost old_views = bands@.map_values(|x: Band| band_view(x));
        let ghost item: BandView = (t, data@);
        bands.push(Band { pixel_type: t, data });
        proof {
            assert(bands@.map_values(|x: Band| band_view(x)) =~= old_views.push(item));
            let tail = spec_read_bands(b, end as int, (count - n - 1) as nat, npix_n);
            if tail is Ok {
                assert(old_views + (seq![item] + tail->Ok_0) =~= old_views.push(item)
                    + tail->Ok_0);
            }
        }
        pos = end;
        n = n + 1;
    }
    proof {
        assert(bands@.map_values(|x: Band| band_view(x)) + Seq::<BandView>::empty() =~= bands@.map_values(
            |x: Band| band_view(x),
        ));
    }
    Ok(
        RasterImage {
            width,
            height,
            geo_transform,
            projection,
            pixel_type,
            no_data,
            bands,
        },
    )
}

proof fn lemma_encode_bands_push(s: Seq<BandView>, x: BandView)
    ensures
        encode_bands(s.push(x)) == encode_bands(s) + be_u32_bytes(x.0.spec_tag()) + x.1,
    decreases s.len(),
{
    if s.len() == 0 {
        let y = s.push(x);
        assert(y.drop_first() =~= Seq::<BandView>::empty());
        assert(y[0] == x);
        assert(encode_bands(y.drop_first()) == Seq::<u8>::empty());
        assert(encode_bands(s) == Seq::<u8>::empty());
        assert(encode_bands(y) =~= encode_bands(s) + be_u32_bytes(x.0.spec_tag()) + x.1);
    } else {
        let y = s.push(x);
        assert(y.drop_first() =~= s.drop_first().push(x));
        assert(y[0] == s[0]);
        lemma_encode_bands_push(s.drop_first(), x);
        let e = be_u32_bytes(x.0.spec_tag()) + x.1;
        let head = be_u32_bytes(s[0].0.spec_tag()) + s[0].1;
        assert(encode_bands(y) == head + encode_bands(y.drop_first()));
        assert(encode_bands(s) == head + encode_bands(s.drop_first()));
        assert(encode_bands(y.drop_first()) =~= encode_bands(s.drop_first()) + e);
        assert(encode_bands(y) =~= encode_bands(s) + e);
    }
}

/// Writes the binary form of an image.
pub fn write(img: &RasterImage) -> (r: Vec<u8>)
    requires
        well_formed(img@),
    ensures
        r@ == spec_write(img@),
{
    let mut out: Vec<u8> = Vec::new();
    write_be_u32(&mut out, img.width);
    write_be_u32(&mut out, img.height);
    write_be_u64(&mut out, img.geo_transform[0]);
    write_be_u64(&mut out, img.geo_transform[1]);
    write_be_u64(&mut out, img.geo_transform[2]);
    write_be_u64(&mut out, img.geo_transform[3]);
    write_be_u64(&mut out, img.geo_transform[4]);
    write_be_u64(&mut out, img.geo_transform[5]);
    let proj = img.projection.as_str().as_bytes();
    write_be_u32(&mut out, proj.len() as u32);
    append_bytes(&mut out, proj);
    write_be_u32(&mut out, img.pixel_type.tag());
    match img.no_data {
        None => {
            out.push(0);
        },
        Some(v) => {
            out.push(1);
            write_be_u64(&mut out, v);
        },
    }
    out.push(img.bands.len() as u8);
    let ghost header = out@;
    let ghost views = img@.bands;
    assert(header =~= encode_header(img@));
    let mut i: usize = 0;
    assert(views.take(0) =~= Seq::<BandView>::empty());
    while i < img.bands.len()
        invariant
            i <= img.bands@.len(),
            views == img@.bands,
            views.len() == img.bands@.len(),
            out@ == header + encode_bands(views.take(i as int)),
        decreases img.bands@.len() - i,
    {
        let band = &img.bands[i];
        assert(views[i as int] == band_view(*band));
        write_be_u32(&mut out, band.pixel_type.tag());
        append_bytes(&mut out, band.data.as_slice());
        proof {
            assert(views.take(i + 1) =~= views.take(i as int).push(views[i as int]));
            lemma_encode_bands_push(views.take(i as int), views[i as int]);
            assert(out@ =~= header + encode_bands(views.take(i + 1)));
        }
        i = i + 1;
    }
    assert(views.take(i as int) =~= views);
    out
}

proof fn lemma_u32_at(s: Seq<u8>, pos: int, n: u32)
    requires
        0 <= pos,
        pos + 4 <= s.len(),
        s.subrange(pos, pos + 4) == be_u32_bytes(n),
    ensures
        u32_at(s, pos) == n,
{
    assert(s[pos] == s.subrange(pos, pos + 4)[0]);
    assert(s[pos + 1] == s.subrange(pos, pos + 4)[1]);
    assert(s[pos + 2] == s.subrange(pos, pos + 4)[2]);
    assert(s[pos + 3] == s.subrange(pos, pos + 4)[3]);
    lemma_u32_round_trip(n);
}

proof fn lemma_u64_at(s: Seq<u8>, pos: int, n: u64)
    requires
        0 <= pos,
        pos + 8 <= s.len(),
        s.subrange(pos, pos + 8) == be_u64_bytes(n),
    ensures
        u64_at(s, pos) == n,
{
    lemma_u64_round_trip(n);
}

proof fn lemma_tag_round_trip(t: PixelType)
    ensures
        pixel_type_of(t.spec_tag()) == Some(t),
{
}

proof fn lemma_read_bands(pre: Seq<u8>, bands: Seq<BandView>, npix: nat)
    requires
        forall|i: int| 0 <= i < bands.len() ==> (#[trigger] bands[i]).1.len() == npix * bands[i].0.spec_size(),
    ensures
        spec_read_bands(pre + encode_bands(bands), pre.len() as int, bands.len(), npix) == Ok::<
            Seq<BandView>,
            SerializeError,
        >(bands),
    decreases bands.len(),
{
    let w = pre + encode_bands(bands);
    if bands.len() > 0 {
        let t = bands[0].0;
        let d = bands[0].1;
        let tail = bands.drop_first();
        let pre2 = pre + be_u32_bytes(t.spec_tag()) + d;
        assert(w =~= pre2 + encode_bands(tail));
        assert(w.subrange(pre.len() as int, pre.len() as int + 4) =~= be_u32_bytes(t.spec_tag()));
        lemma_u32_at(w, pre.len() as int, t.spec_tag());
        lemma_tag_round_trip(t);
        assert(bands[0].1.len() == npix * t.spec_size());
        assert(w.subrange(pre.len() as int + 4, pre2.len() as int) =~= d);
        assert forall|i: int| 0 <= i < tail.len() implies (#[trigger] tail[i]).1.len() == npix
            * tail[i].0.spec_size() by {
            assert(tail[i] == bands[i + 1]);
        }
        lemma_read_bands(pre2, tail, npix);
        assert(seq![(t, d)] + tail =~= bands);
    } else {
        assert(bands =~= Seq::<BandView>::empty());
    }
}

proof fn lemma_fixed_fields(img: ImageView, w: Seq<u8>)
    requires
        img.geo_transform.len() == 6,
        w.len() >= 60,
        w.subrange(0, 60) == encode_fixed(img),
    ensures
        u32_at(w, 0) == img.width,
        u32_at(w, 4) == img.height,
        Seq::new(6, |i: int| u64_at(w, 8 + 8 * i)) == img.geo_transform,
        u32_at(w, 56) == encode_utf8(img.projection).len() as u32,
{
    let f = encode_fixed(img);
    let g = encode_transform(img.geo_transform);
    let l = encode_utf8(img.projection).len() as u32;
    assert forall|i: int| 0 <= i < 60 implies w[i] == f[i] by {
        assert(w.subrange(0, 60)[i] == w[i]);
    }
    let a = be_u32_bytes(img.width);
    let b = be_u32_bytes(img.height);
    let c = be_u32_bytes(l);
    assert(f == a + b + g + c);
    assert(w.subrange(0, 4) =~= a);
    lemma_u32_at(w, 0, img.width);
    assert(w.subrange(4, 8) =~= b) by {
        assert forall|i: int| 0 <= i < 4 implies w[4 + i] == b[i] by {
            assert(f[4 + i] == (a + b + g)[4 + i]);
            assert((a + b + g)[4 + i] == (a + b)[4 + i]);
        }
    }
    lemma_u32_at(w, 4, img.height);
    assert forall|i: int| 0 <= i < 6 implies u64_at(w, 8 + 8 * i) == img.geo_transform[i] by {
        let gi = be_u64_bytes(img.geo_transform[i]);
        assert(g.subrange(8 * i, 8 * i + 8) =~= gi);
        assert(w.subrange(8 + 8 * i, 16 + 8 * i) =~= gi) by {
            assert forall|k: int| 0 <= k < 8 implies w[8 + 8 * i + k] == gi[k] by {
                assert(f[8 + 8 * i + k] == (a + b + g)[8 + 8 * i + k]);
                assert(g.subrange(8 * i, 8 * i + 8)[k] == g[8 * i + k]);
            }
        }
        lemma_u64_at(w, 8 + 8 * i, img.geo_transform[i]);
    }
    assert(Seq::new(6, |i: int| u64_at(w, 8 + 8 * i)) =~= img.geo_transform);
    assert(w.subrange(56, 60) =~= c) by {
        assert forall|i: int| 0 <= i < 4 implies w[56 + i] == c[i] by {
            assert(f[56 + i] == c[i]);
        }
    }
    lemma_u32_at(w, 56, l);
}

proof fn lemma_tail_fields(img: ImageView, w: Seq<u8>, p: int)
    requires
        0 <= p,
        w.len() >= p + encode_tail(img).len(),
        w.subrange(p, p + encode_tail(img).len()) == encode_tail(img),
    ensures
        u32_at(w, p) == img.pixel_type.spec_tag(),
        w[p + 4] == (if img.no_data is None { 0u8 } else { 1u8 }),
        img.no_data matches Some(v) ==> u64_at(w, p + 5) == v,
        encode_tail(img).len() == (if img.no_data is None { 6int } else { 14int }),
        w[p + encode_tail(img).len() - 1] == img.bands.len() as u8,
{
    let t = encode_tail(img);
    assert(w.subrange(p, p + 4) =~= be_u32_bytes(img.pixel_type.spec_tag()));
    lemma_u32_at(w, p, img.pixel_type.spec_tag());
    assert(w[p + 4] == t[4]);
    assert(w[p + t.len() - 1] == t[t.len() - 1]);
    if let Some(v) = img.no_data {
        let nd = be_u64_bytes(v);
        assert(t == be_u32_bytes(img.pixel_type.spec_tag()) + (seq![1u8] + nd) + seq![
            img.bands.len() as u8,
        ]);
        assert(w.subrange(p + 5, p + 13) =~= nd) by {
            assert forall|k: int| 0 <= k < 8 implies w[p + 5 + k] == nd[k] by {
                assert(w.subrange(p, p + t.len())[5 + k] == w[p + 5 + k]);
                assert(t[5 + k] == nd[k]);
            }
        }
        lemma_u64_at(w, p + 5, v);
    }
}

/// Reading the binary form of an image gives the image back.
#[verifier::rlimit(50)]
pub proof fn lemma_read_write(img: ImageView)
    requires
        well_formed(img),
    ensures
        spec_read(spec_write(img)) == Ok::<ImageView, SerializeError>(img),
{
    let w = spec_write(img);
    let h = encode_header(img);
    let f = encode_fixed(img);
    let proj = encode_utf8(img.projection);
    let t = encode_tail(img);
    let p: int = 60 + proj.len() as int;
    assert(f.len() == 60);
    assert(w.subrange(0, 60) =~= f);
    lemma_fixed_fields(img, w);
    assert(w.subrange(60, p) =~= proj);
    vstd::utf8::encode_utf8_valid_utf8(img.projection);
    vstd::utf8::encode_utf8_decode_utf8(img.projection);
    assert(w.subrange(p, p + t.len() as int) =~= t);
    lemma_tail_fields(img, w, p);
    lemma_tag_round_trip(img.pixel_type);
    assert(h.len() == p + t.len());
    lemma_read_bands(h, img.bands, (img.width * img.height) as nat);
}
} // verus!
