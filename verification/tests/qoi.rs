use terrain_streaming::qoi::{unpack, Rgba};

fn image(width: u32, height: u32, channels: u8, chunks: &[u8]) -> Vec<u8> {
    let mut bytes = vec![b'q', b'o', b'i', b'f'];
    bytes.extend(width.to_be_bytes());
    bytes.extend(height.to_be_bytes());
    bytes.push(channels);
    bytes.push(0);
    bytes.extend(chunks);
    bytes.extend([0, 0, 0, 0, 0, 0, 0, 1]);
    bytes
}

fn rgba(r: u8, g: u8, b: u8, a: u8) -> Rgba {
    Rgba { r, g, b, a }
}

fn pixels(width: u32, height: u32, chunks: &[u8]) -> Option<Vec<Rgba>> {
    unpack(&image(width, height, 3, chunks)).map(|i| i.pixels)
}

#[test]
fn pixels_given_outright() {
    let unpacked = unpack(&image(2, 1, 3, &[0xfe, 10, 20, 30, 0xfe, 40, 50, 60])).unwrap();
    assert_eq!(unpacked.width, 2);
    assert_eq!(unpacked.height, 1);
    assert_eq!(unpacked.pixels, vec![rgba(10, 20, 30, 255), rgba(40, 50, 60, 255)]);
}

#[test]
fn pixels_given_with_alpha() {
    assert_eq!(
        unpack(&image(1, 3, 4, &[0xff, 1, 2, 3, 4, 0xfe, 9, 8, 7, 0x6a])).map(|i| i.pixels),
        Some(vec![rgba(1, 2, 3, 4), rgba(9, 8, 7, 4), rgba(9, 8, 7, 4)])
    );
}

#[test]
fn repeated_pixels() {
    assert_eq!(pixels(2, 2, &[0xfe, 1, 2, 3, 0xc2]), Some(vec![rgba(1, 2, 3, 255); 4]));
    assert_eq!(pixels(3, 1, &[0xc2]), Some(vec![rgba(0, 0, 0, 255); 3]));
    assert_eq!(pixels(1, 1, &[0xc0]), Some(vec![rgba(0, 0, 0, 255)]));
    assert_eq!(pixels(62, 1, &[0xfd]), Some(vec![rgba(0, 0, 0, 255); 62]));
    assert_eq!(pixels(63, 1, &[0xfd, 0xc0]), Some(vec![rgba(0, 0, 0, 255); 63]));
    // A repetition that runs past the image is cut off.
    assert_eq!(pixels(2, 1, &[0xc5]), Some(vec![rgba(0, 0, 0, 255); 2]));
}

#[test]
fn pixels_from_the_table() {
    // The hash of (10, 20, 30, 255) is 9.
    assert_eq!(
        pixels(3, 1, &[0xfe, 10, 20, 30, 0xfe, 1, 1, 1, 0x09]),
        Some(vec![rgba(10, 20, 30, 255), rgba(1, 1, 1, 255), rgba(10, 20, 30, 255)])
    );
    // A place of the table that was never written holds transparent black.
    assert_eq!(pixels(2, 1, &[0x05, 0x6a]), Some(vec![rgba(0, 0, 0, 0); 2]));
    // The first pixel of a repetition enters the table: (0, 0, 0, 255) has the hash 53.
    assert_eq!(
        pixels(4, 1, &[0xc1, 0xfe, 5, 5, 5, 0x35]),
        Some(vec![rgba(0, 0, 0, 255), rgba(0, 0, 0, 255), rgba(5, 5, 5, 255), rgba(0, 0, 0, 255)])
    );
}

#[test]
fn pixels_by_small_difference() {
    assert_eq!(
        pixels(2, 1, &[0xfe, 10, 20, 30, 0x72]),
        Some(vec![rgba(10, 20, 30, 255), rgba(11, 18, 30, 255)])
    );
    assert_eq!(pixels(1, 1, &[0x4a]), Some(vec![rgba(254, 0, 0, 255)]));
    assert_eq!(
        pixels(2, 1, &[0xfe, 255, 255, 254, 0x7f]),
        Some(vec![rgba(255, 255, 254, 255), rgba(0, 0, 255, 255)])
    );
    assert_eq!(pixels(1, 1, &[0x6a]), Some(vec![rgba(0, 0, 0, 255)]));
}

#[test]
fn pixels_by_difference_of_green() {
    assert_eq!(
        pixels(2, 1, &[0xfe, 10, 20, 30, 0xa5, 0x5a]),
        Some(vec![rgba(10, 20, 30, 255), rgba(12, 25, 37, 255)])
    );
    assert_eq!(pixels(1, 1, &[0x80, 0x00]), Some(vec![rgba(216, 224, 216, 255)]));
    assert_eq!(pixels(1, 1, &[0xbf, 0xff]), Some(vec![rgba(38, 31, 38, 255)]));
    assert_eq!(pixels(1, 1, &[0xa0, 0x88]), Some(vec![rgba(0, 0, 0, 255)]));
}

#[test]
fn empty_image() {
    assert_eq!(pixels(0, 5, &[]), Some(vec![]));
    assert_eq!(pixels(0, 0, &[]), Some(vec![]));
    assert_eq!(pixels(0, 0, &[0xc0]), None);
}

#[test]
fn wrong_header_is_rejected() {
    let good = image(1, 1, 3, &[0xc0]);
    assert!(unpack(&good).is_some());
    for i in 0..4 {
        let mut bad = good.clone();
        bad[i] ^= 1;
        assert!(unpack(&bad).is_none());
    }
    for channels in [0, 1, 2, 5, 255] {
        assert!(unpack(&image(1, 1, channels, &[0xc0])).is_none());
    }
    assert!(unpack(&image(1, 1, 4, &[0xc0])).is_some());
    let mut linear = good.clone();
    linear[13] = 1;
    assert!(unpack(&linear).is_some());
    linear[13] = 2;
    assert!(unpack(&linear).is_none());
    assert!(unpack(&vec![]).is_none());
    assert!(unpack(&good[..21].to_vec()).is_none());
}

#[test]
fn chunks_that_end_early_are_rejected() {
    assert_eq!(pixels(2, 1, &[0xfe, 1, 2, 3]), None);
    assert_eq!(pixels(1, 1, &[]), None);
    assert_eq!(pixels(1, 1, &[0xfe, 1, 2]), None);
    assert_eq!(pixels(1, 1, &[0xff, 1, 2, 3]), None);
    assert_eq!(pixels(1, 1, &[0xa0]), None);
    let whole = image(1, 1, 3, &[0xfe, 1, 2, 3]);
    for cut in 14..whole.len() {
        assert!(unpack(&whole[..cut].to_vec()).is_none());
    }
}

#[test]
fn whatever_follows_the_image_must_be_the_end_marker() {
    assert_eq!(pixels(1, 1, &[0xc0, 0xc0]), None);
    let mut bytes = image(1, 1, 3, &[0xc0]);
    let last = bytes.len() - 1;
    bytes[last] = 0;
    assert!(unpack(&bytes).is_none());
    bytes[last] = 1;
    bytes[last - 3] = 1;
    assert!(unpack(&bytes).is_none());
    bytes[last - 3] = 0;
    assert!(unpack(&bytes).is_some());
    bytes.push(0);
    assert!(unpack(&bytes).is_none());
}
