use terrain_streaming::codec::{decode_pixel, decode_raster, encode_pixel, encode_raster};
use terrain_streaming::config::AttachmentFormat;
use terrain_streaming::raster::{as_data, merge, nodata, Pixel, Raster};

const R16: AttachmentFormat = AttachmentFormat::R16;
const RGB: AttachmentFormat = AttachmentFormat::Rgb8;

fn h(r: u16) -> Pixel {
    Pixel { r, g: 0, b: 0 }
}

fn rgb(r: u16, g: u16, b: u16) -> Pixel {
    Pixel { r, g, b }
}

fn heights(width: usize, values: &[u16]) -> Raster {
    let rows: Vec<Vec<Pixel>> = values.chunks(width).map(|c| c.iter().map(|v| h(*v)).collect()).collect();
    Raster::from_rows(width, rows).unwrap()
}

fn values(raster: &Raster) -> Vec<u16> {
    let mut out = Vec::new();
    for y in 0..raster.height() {
        for x in 0..raster.width() {
            out.push(raster.pixel(x, y).r);
        }
    }
    out
}

#[test]
fn missing_data_has_its_pixel() {
    assert_eq!(nodata(R16), h(0));
    assert_eq!(nodata(RGB), rgb(255, 0, 255));
}

#[test]
fn data_is_kept_apart_from_missing_data() {
    assert_eq!(as_data(R16, h(0)), h(1));
    assert_eq!(as_data(R16, h(1)), h(1));
    assert_eq!(as_data(R16, h(65535)), h(65535));
    assert_eq!(as_data(RGB, rgb(255, 0, 255)), rgb(255, 0, 254));
    assert_eq!(as_data(RGB, rgb(255, 0, 254)), rgb(255, 0, 254));
    assert_eq!(as_data(RGB, rgb(0, 0, 0)), rgb(0, 0, 0));
}

#[test]
fn merge_takes_the_rounded_mean() {
    assert_eq!(merge(R16, &vec![h(10), h(20), h(30), h(41)]), h(25));
    assert_eq!(merge(R16, &vec![h(10), h(20), h(30), h(42)]), h(26));
    assert_eq!(merge(R16, &vec![h(7), h(7), h(7), h(7)]), h(7));
    assert_eq!(merge(R16, &vec![h(65535), h(65535), h(65535), h(65535)]), h(65535));
    assert_eq!(merge(R16, &vec![h(5)]), h(5));
    assert_eq!(
        merge(RGB, &vec![rgb(0, 10, 255), rgb(2, 10, 255), rgb(4, 11, 255), rgb(7, 11, 255)]),
        rgb(3, 11, 255)
    );
}

#[test]
fn merge_leaves_missing_data_out() {
    assert_eq!(merge(R16, &vec![h(1), h(2), h(0), h(0)]), h(2));
    assert_eq!(merge(R16, &vec![h(0), h(9), h(0), h(0)]), h(9));
    assert_eq!(merge(R16, &vec![h(0), h(0), h(0), h(0)]), h(0));
    assert_eq!(merge(R16, &vec![h(4), h(0), h(5), h(6)]), h(5));
    assert_eq!(
        merge(RGB, &vec![rgb(255, 0, 255), rgb(10, 20, 30), rgb(255, 0, 255), rgb(20, 40, 61)]),
        rgb(15, 30, 46)
    );
    assert_eq!(merge(RGB, &vec![rgb(255, 0, 255); 4]), rgb(255, 0, 255));
}

#[test]
fn merged_data_never_reads_as_missing() {
    assert_eq!(
        merge(RGB, &vec![rgb(255, 0, 254), rgb(255, 0, 255), rgb(255, 0, 254), rgb(255, 1, 255)]),
        rgb(255, 0, 254)
    );
    assert_eq!(
        merge(RGB, &vec![rgb(255, 0, 254), rgb(254, 0, 255), rgb(255, 0, 255), rgb(255, 1, 255)]),
        rgb(255, 0, 254)
    );
}

#[test]
fn rasters_are_built_from_rows() {
    let r = heights(3, &[1, 2, 3, 4, 5, 6]);
    assert_eq!(r.width(), 3);
    assert_eq!(r.height(), 2);
    assert_eq!(r.get(2, 1), Some(h(6)));
    assert_eq!(r.get(0, 1), Some(h(4)));
    assert_eq!(r.get(3, 0), None);
    assert_eq!(r.get(0, 2), None);
    assert!(Raster::from_rows(2, vec![vec![h(1), h(2)], vec![h(3)]]).is_none());
    let empty = Raster::from_rows(5, vec![]).unwrap();
    assert_eq!(empty.height(), 0);
    let filled = Raster::filled(2, 3, h(9));
    assert_eq!(values(&filled), vec![9; 6]);
    assert_eq!(filled.width(), 2);
    assert_eq!(filled.height(), 3);
}

#[test]
fn downsample_halves_the_raster() {
    let r = heights(4, &[1, 3, 10, 10, 5, 7, 10, 11, 0, 0, 100, 0, 0, 0, 0, 0]);
    let d = r.downsample(R16);
    assert_eq!(d.width(), 2);
    assert_eq!(d.height(), 2);
    assert_eq!(values(&d), vec![4, 10, 0, 100]);
}

#[test]
fn downsample_repeats_the_last_row_and_column_of_odd_rasters() {
    let r = heights(3, &[1, 3, 8, 5, 7, 10, 20, 30, 40]);
    let d = r.downsample(R16);
    assert_eq!(d.width(), 2);
    assert_eq!(d.height(), 2);
    assert_eq!(values(&d), vec![4, 9, 25, 40]);
    let one = heights(1, &[6]).downsample(R16);
    assert_eq!(values(&one), vec![6]);
}

#[test]
fn downsample_keeps_a_constant() {
    let d = Raster::filled(8, 6, rgb(12, 0, 200)).downsample(RGB);
    assert_eq!(d.width(), 4);
    assert_eq!(d.height(), 3);
    for y in 0..3 {
        for x in 0..4 {
            assert_eq!(d.pixel(x, y), rgb(12, 0, 200));
        }
    }
}

#[test]
fn elevation_is_stored_low_byte_first() {
    let mut out = vec![9u8];
    encode_pixel(R16, h(0x1234), &mut out);
    encode_pixel(R16, h(1), &mut out);
    encode_pixel(R16, h(65535), &mut out);
    assert_eq!(out, vec![9, 0x34, 0x12, 1, 0, 255, 255]);
    assert_eq!(decode_pixel(R16, &out, 1), h(0x1234));
    assert_eq!(decode_pixel(R16, &out, 3), h(1));
    assert_eq!(decode_pixel(R16, &out, 5), h(65535));
    assert_eq!(decode_pixel(R16, &out, 2), h(0x0112));
}

#[test]
fn imagery_is_stored_channel_by_channel() {
    let mut out = Vec::new();
    encode_pixel(RGB, rgb(1, 2, 3), &mut out);
    encode_pixel(RGB, rgb(255, 0, 254), &mut out);
    assert_eq!(out, vec![1, 2, 3, 255, 0, 254]);
    assert_eq!(decode_pixel(RGB, &out, 0), rgb(1, 2, 3));
    assert_eq!(decode_pixel(RGB, &out, 3), rgb(255, 0, 254));
}

#[test]
fn rasters_are_stored_row_by_row() {
    let r = heights(3, &[1, 2, 3, 256, 257, 258]);
    let mut out = vec![7u8, 7];
    encode_raster(R16, &r, &mut out);
    assert_eq!(out, vec![7, 7, 1, 0, 2, 0, 3, 0, 0, 1, 1, 1, 2, 1]);
    let back = decode_raster(R16, &out, 2, 3, 2);
    assert_eq!(values(&back), vec![1, 2, 3, 256, 257, 258]);
    let shifted = decode_raster(R16, &out, 4, 2, 2);
    assert_eq!(values(&shifted), vec![2, 3, 256, 257]);
    let none = decode_raster(R16, &out, 14, 0, 0);
    assert_eq!(none.height(), 0);
}

#[test]
fn stored_imagery_reads_back() {
    let rows = vec![
        vec![rgb(1, 2, 3), rgb(4, 5, 6)],
        vec![rgb(255, 0, 255), rgb(0, 0, 0)],
        vec![rgb(9, 8, 7), rgb(255, 255, 255)],
    ];
    let r = Raster::from_rows(2, rows.clone()).unwrap();
    let mut out = Vec::new();
    encode_raster(RGB, &r, &mut out);
    assert_eq!(out.len(), 18);
    assert_eq!(&out[6..9], &[255, 0, 255]);
    let back = decode_raster(RGB, &out, 0, 2, 3);
    for y in 0..3 {
        for x in 0..2 {
            assert_eq!(back.pixel(x, y), rows[y][x]);
        }
    }
}
