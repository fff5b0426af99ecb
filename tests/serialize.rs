use geotile::serialize;
use geotile::serialize::{read, Band, PixelType, RasterImage, SerializeError};

fn sample_image() -> RasterImage {
    let transform = [-105.5f64, 0.25, 0.0, 41.0, 0.0, -0.25];
    RasterImage {
        width: 3,
        height: 2,
        geo_transform: transform.iter().map(|v| v.to_bits()).collect(),
        projection: "GEOGCS[\"WGS 84\"] \u{b0}".to_string(),
        pixel_type: PixelType::I16,
        no_data: Some((-9999.0f64).to_bits()),
        bands: vec![
            Band { pixel_type: PixelType::I16, data: vec![0, 1, 0, 2, 0, 3, 0, 4, 0, 5, 0, 6] },
            Band { pixel_type: PixelType::U8, data: vec![9, 8, 7, 6, 5, 4] },
        ],
    }
}

fn same(a: &RasterImage, b: &RasterImage) {
    assert_eq!((a.width, a.height), (b.width, b.height));
    assert_eq!(a.geo_transform, b.geo_transform);
    assert_eq!(a.projection, b.projection);
    assert_eq!(a.pixel_type, b.pixel_type);
    assert_eq!(a.no_data, b.no_data);
    assert_eq!(a.bands.len(), b.bands.len());
    for (x, y) in a.bands.iter().zip(b.bands.iter()) {
        assert_eq!(x.pixel_type, y.pixel_type);
        assert_eq!(x.data, y.data);
    }
}

#[test]
fn serialize_cycle() {
    let image = sample_image();
    let bytes = serialize::write(&image);
    let image2 = read(&bytes).expect("read dataset");
    same(&image, &image2);
}

#[test]
fn header_layout() {
    let mut image = sample_image();
    image.no_data = None;
    image.projection = "P".to_string();
    image.bands.truncate(1);
    let bytes = serialize::write(&image);
    assert_eq!(&bytes[0..8], &[0, 0, 0, 3, 0, 0, 0, 2]);
    assert_eq!(&bytes[8..16], &(-105.5f64).to_be_bytes());
    assert_eq!(&bytes[56..61], &[0, 0, 0, 1, b'P']);
    assert_eq!(&bytes[61..67], &[0, 0, 0, 3, 0, 1]);
    assert_eq!(&bytes[67..71], &[0, 0, 0, 3]);
    assert_eq!(bytes.len(), 71 + 12);
    let back = read(&bytes).unwrap();
    same(&image, &back);
}

#[test]
fn read_ignores_trailing_bytes() {
    let image = sample_image();
    let mut bytes = serialize::write(&image);
    bytes.extend_from_slice(&[1, 2, 3]);
    same(&image, &read(&bytes).unwrap());
}

#[test]
fn read_truncated() {
    let bytes = serialize::write(&sample_image());
    for cut in [0, 10, 59, 70, bytes.len() - 1] {
        assert_eq!(read(&bytes[..cut]).err(), Some(SerializeError::Truncated));
    }
}

#[test]
fn read_invalid_utf8() {
    let mut image = sample_image();
    image.projection = "ab".to_string();
    let mut bytes = serialize::write(&image);
    bytes[60] = 0xff;
    assert_eq!(read(&bytes).err(), Some(SerializeError::InvalidUtf8));
}

#[test]
fn read_unknown_pixel_type() {
    let mut image = sample_image();
    image.projection = String::new();
    let mut bytes = serialize::write(&image);
    bytes[63] = 5;
    assert_eq!(read(&bytes).err(), Some(SerializeError::UnknownPixelType));
    let mut bytes = serialize::write(&image);
    // the tag of the first band follows the 9-byte no-data field and the count
    let band_tag = 60 + 4 + 9 + 1 + 3;
    bytes[band_tag] = 7;
    assert_eq!(read(&bytes).err(), Some(SerializeError::UnknownPixelType));
}

#[test]
fn pixel_type_tags() {
    for (t, tag, size) in [
        (PixelType::U8, 1, 1),
        (PixelType::U16, 2, 2),
        (PixelType::I16, 3, 2),
        (PixelType::F32, 6, 4),
    ] {
        assert_eq!(t.tag(), tag);
        assert_eq!(t.size(), size);
        assert_eq!(PixelType::from_tag(tag), Some(t));
    }
    assert_eq!(PixelType::from_tag(4), None);
}
