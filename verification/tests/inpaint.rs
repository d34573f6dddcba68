use inpaint::codec::{decode_rgba, encode_rgba, CodecError};
use inpaint::commit::{apply_changes, converge};
use inpaint::fill::decide_fill;
use inpaint::image::{Change, Color, Color16, Image, Pixel};
use inpaint::scan::{quadrant_rect, scan_quadrant, scan_step};

fn solid(width: u32, height: u32, c: [u8; 4]) -> Image {
    let mut data = Vec::new();
    for _ in 0..width * height {
        data.extend_from_slice(&c);
    }
    Image { data, width, height }
}

fn put(img: &mut Image, x: u32, y: u32, c: [u8; 4]) {
    let pos = ((y * img.width + x) * 4) as usize;
    img.data[pos..pos + 4].copy_from_slice(&c);
}

fn get(img: &Image, x: u32, y: u32) -> [u8; 4] {
    let pos = ((y * img.width + x) * 4) as usize;
    [img.data[pos], img.data[pos + 1], img.data[pos + 2], img.data[pos + 3]]
}

fn count_opaque_pixels(img: &Image) -> usize {
    img.data.chunks(4).filter(|px| px[3] == 255).count()
}

fn change_key(c: &Change) -> (i64, i64, u8, u8, u8, u8) {
    (c.loc.0, c.loc.1, c.col.r, c.col.g, c.col.b, c.col.a)
}

#[test]
fn two_opaque_neighbors_never_fill() {
    // 3x3 frame, everything transparent but exactly two opaque neighbors
    // of the center.
    let mut img = solid(3, 3, [0, 0, 0, 0]);
    put(&mut img, 0, 0, [50, 50, 50, 255]);
    put(&mut img, 2, 2, [70, 70, 70, 255]);
    let kern = img.get_kernel(&Pixel(1, 1));
    assert_eq!(decide_fill(&kern), None);
}

#[test]
fn three_opaque_neighbors_fill() {
    let mut img = solid(3, 3, [0, 0, 0, 0]);
    put(&mut img, 0, 0, [30, 0, 0, 255]);
    put(&mut img, 2, 2, [60, 0, 0, 255]);
    put(&mut img, 1, 0, [90, 0, 0, 255]);
    let kern = img.get_kernel(&Pixel(1, 1));
    let got = decide_fill(&kern).expect("three opaque neighbors must fill");
    assert_eq!(got.a, 255);
    assert_eq!(got.r, (30 + 60 + 90) / 3);
}

#[test]
fn averaging_uses_truncating_division() {
    // Neighbors with opaque R values {10, 20, 21}: the average is
    // 51 / 3 = 17 exactly by floor division, not rounding.
    let mut kern: Vec<Option<Color16>> = vec![None; 9];
    kern[0] = Some(Color16 { r: 10, g: 3, b: 1, a: 255 });
    kern[1] = Some(Color16 { r: 20, g: 3, b: 1, a: 255 });
    kern[2] = Some(Color16 { r: 21, g: 5, b: 1, a: 255 });
    let got = decide_fill(&kern).expect("three opaque neighbors must fill");
    assert_eq!(got.r, 17);
    assert_eq!(got.g, (3 + 3 + 5) / 3);
    assert_eq!(got.b, 1);
    assert_eq!(got.a, 255);
}

#[test]
fn non_opaque_neighbors_contribute_nothing() {
    let mut kern: Vec<Option<Color16>> = vec![None; 9];
    kern[0] = Some(Color16 { r: 10, g: 0, b: 0, a: 255 });
    kern[1] = Some(Color16 { r: 20, g: 0, b: 0, a: 255 });
    kern[2] = Some(Color16 { r: 21, g: 0, b: 0, a: 255 });
    // present but not fully opaque: ignored entirely
    kern[3] = Some(Color16 { r: 200, g: 200, b: 200, a: 254 });
    kern[5] = Some(Color16 { r: 200, g: 200, b: 200, a: 0 });
    let got = decide_fill(&kern).expect("still three opaque neighbors");
    assert_eq!(got.r, 17);
}

#[test]
fn center_slot_is_excluded_from_averaging() {
    let mut kern: Vec<Option<Color16>> = vec![None; 9];
    kern[0] = Some(Color16 { r: 12, g: 0, b: 0, a: 255 });
    kern[1] = Some(Color16 { r: 12, g: 0, b: 0, a: 255 });
    kern[2] = Some(Color16 { r: 12, g: 0, b: 0, a: 255 });
    // the center (index 4) must not count as a neighbor even if opaque
    kern[4] = Some(Color16 { r: 255, g: 255, b: 255, a: 255 });
    let got = decide_fill(&kern).expect("three opaque neighbors");
    assert_eq!(got.r, 12);
    assert_eq!(got.g, 0);
}

#[test]
fn corner_pixel_can_fill_with_three_neighbors() {
    // 2x2 frame: the corner (0, 0) has only 3 neighbor slots; when all 3
    // are opaque, hits = 3 is achievable and the corner fills.
    let mut img = solid(2, 2, [10, 20, 30, 255]);
    put(&mut img, 0, 0, [0, 0, 0, 0]);
    let v = scan_quadrant(&img, 0, 2, 0, 2);
    assert_eq!(v.len(), 1);
    assert_eq!(v[0].loc, Pixel(0, 0));
    assert_eq!(v[0].col, Color { r: 10, g: 20, b: 30, a: 255 });
}

#[test]
fn single_pixel_frame_has_no_neighbors() {
    let img = solid(1, 1, [0, 0, 0, 0]);
    let kern = img.get_kernel(&Pixel(0, 0));
    for (i, slot) in kern.iter().enumerate() {
        if i == 4 {
            assert!(slot.is_some());
        } else {
            assert!(slot.is_none());
        }
    }
    let mut img = img;
    let rounds = converge(&mut img);
    assert_eq!(rounds, 0);
    assert_eq!(img.data, vec![0, 0, 0, 0]);
}

#[test]
fn single_column_frame_never_fills() {
    // 1xN: a transparent pixel has at most two in-frame neighbors, below
    // the threshold of three, so nothing ever fills.
    let mut img = solid(1, 3, [5, 5, 5, 255]);
    put(&mut img, 0, 1, [0, 0, 0, 0]);
    let before = img.data.clone();
    let rounds = converge(&mut img);
    assert_eq!(rounds, 0);
    assert_eq!(img.data, before);
}

#[test]
fn saturated_frame_scans_once_and_is_unchanged() {
    let mut img = solid(4, 4, [1, 2, 3, 255]);
    put(&mut img, 3, 0, [200, 100, 50, 255]);
    let before = img.data.clone();
    let vs = scan_step(&img);
    assert_eq!(vs.len(), 4);
    assert!(vs.iter().all(|v| v.is_empty()));
    let rounds = converge(&mut img);
    assert_eq!(rounds, 0);
    assert_eq!(img.data, before);
}

#[test]
fn opaque_count_never_decreases() {
    let mut img = solid(6, 6, [0, 0, 0, 0]);
    for x in 0..6 {
        put(&mut img, x, 0, [100, 0, 0, 255]);
        put(&mut img, x, 5, [0, 100, 0, 255]);
    }
    for y in 0..6 {
        put(&mut img, 0, y, [0, 0, 100, 255]);
        put(&mut img, 5, y, [50, 50, 50, 255]);
    }
    let before = count_opaque_pixels(&img);
    converge(&mut img);
    assert!(count_opaque_pixels(&img) >= before);
}

#[test]
fn quadrant_rects_tile_a_5x5_frame() {
    let r0 = quadrant_rect(5, 5, 0);
    let r1 = quadrant_rect(5, 5, 1);
    let r2 = quadrant_rect(5, 5, 2);
    let r3 = quadrant_rect(5, 5, 3);
    assert_eq!((r0.x0, r0.x1, r0.y0, r0.y1), (0, 2, 0, 2));
    assert_eq!((r1.x0, r1.x1, r1.y0, r1.y1), (2, 5, 0, 2));
    assert_eq!((r2.x0, r2.x1, r2.y0, r2.y1), (0, 2, 2, 5));
    assert_eq!((r3.x0, r3.x1, r3.y0, r3.y1), (2, 5, 2, 5));
}

#[test]
fn quadrant_scan_matches_full_scan() {
    // An odd-sized frame with a mixed pattern: the four quadrant scans,
    // pooled, must equal a single full-frame scan as an unordered
    // collection.
    let mut img = solid(5, 5, [0, 0, 0, 0]);
    for y in 0..5u32 {
        for x in 0..5u32 {
            if (x + y) % 2 == 0 {
                let v = (40 * x + 13 * y) as u8;
                put(&mut img, x, y, [v, v.wrapping_mul(3), v ^ 0x5a, 255]);
            }
        }
    }
    let vs = scan_step(&img);
    let mut pooled: Vec<_> = vs.iter().flatten().map(change_key).collect();
    let full = scan_quadrant(&img, 0, 5, 0, 5);
    let mut single: Vec<_> = full.iter().map(change_key).collect();
    pooled.sort();
    single.sort();
    assert!(!single.is_empty());
    assert_eq!(pooled, single);
}

#[test]
fn apply_changes_writes_each_change() {
    let mut img = solid(3, 2, [9, 9, 9, 9]);
    let vecs = vec![
        vec![Change { loc: Pixel(1, 0), col: Color { r: 1, g: 2, b: 3, a: 255 } }],
        vec![],
        vec![Change { loc: Pixel(2, 1), col: Color { r: 4, g: 5, b: 6, a: 255 } }],
        vec![],
    ];
    apply_changes(&mut img, &vecs);
    assert_eq!(get(&img, 1, 0), [1, 2, 3, 255]);
    assert_eq!(get(&img, 2, 1), [4, 5, 6, 255]);
    assert_eq!(get(&img, 0, 0), [9, 9, 9, 9]);
}

#[test]
fn hole_in_black_frame_fills_in_one_round() {
    // 4x4 fully opaque black except (2, 2) fully transparent: one round
    // fills (2, 2) with opaque black and the next scan proposes nothing.
    let mut img = solid(4, 4, [0, 0, 0, 255]);
    put(&mut img, 2, 2, [0, 0, 0, 0]);
    let rounds = converge(&mut img);
    assert_eq!(rounds, 1);
    assert_eq!(get(&img, 2, 2), [0, 0, 0, 255]);
    assert_eq!(img.data, solid(4, 4, [0, 0, 0, 255]).data);
    let vs = scan_step(&img);
    assert!(vs.iter().all(|v| v.is_empty()));
}

#[test]
fn set_pixel_and_test_pixel_agree() {
    let mut img = solid(2, 2, [0, 0, 0, 0]);
    assert!(!img.test_pixel(&Pixel(1, 1)));
    img.set_pixel(&Pixel(1, 1), &Color { r: 7, g: 8, b: 9, a: 255 });
    assert!(img.test_pixel(&Pixel(1, 1)));
    assert_eq!(get(&img, 1, 1), [7, 8, 9, 255]);
    assert_eq!(get(&img, 0, 0), [0, 0, 0, 0]);
}

#[test]
fn codec_round_trip_preserves_pixels() {
    let mut img = solid(2, 2, [0, 0, 0, 0]);
    put(&mut img, 0, 0, [1, 2, 3, 4]);
    put(&mut img, 1, 0, [250, 200, 150, 255]);
    put(&mut img, 0, 1, [0, 0, 0, 255]);
    put(&mut img, 1, 1, [42, 42, 42, 0]);
    let bytes = encode_rgba(&img).expect("encoding a well-formed buffer");
    let back = decode_rgba(&bytes).expect("decoding what was just encoded");
    assert_eq!(back.width, 2);
    assert_eq!(back.height, 2);
    assert_eq!(back.data, img.data);
}

#[test]
fn decode_rejects_garbage() {
    let bytes = b"this is not an image container".to_vec();
    assert!(matches!(decode_rgba(&bytes), Err(CodecError::Decode)));
}

#[test]
fn decode_rejects_non_rgba() {
    // An RGB (no alpha) image stays RGB through decoding and must be
    // rejected with the format error.
    let mut bytes: Vec<u8> = Vec::new();
    {
        let mut encoder = png::Encoder::new(&mut bytes, 2, 1);
        encoder.set_color(png::ColorType::Rgb);
        encoder.set_depth(png::BitDepth::Eight);
        let mut writer = encoder.write_header().unwrap();
        writer.write_image_data(&[1, 2, 3, 4, 5, 6]).unwrap();
        writer.finish().unwrap();
    }
    assert!(matches!(decode_rgba(&bytes), Err(CodecError::Format)));
}

#[test]
fn encode_rejects_empty_frame() {
    let img = Image { data: Vec::new(), width: 0, height: 0 };
    assert_eq!(encode_rgba(&img), Err(CodecError::Encode));
}

#[test]
fn filled_colors_average_across_the_hole_boundary() {
    // A 3x3 frame whose border is opaque with differing reds: the center
    // averages all 8 neighbors with truncation.
    let mut img = solid(3, 3, [0, 0, 0, 255]);
    let reds = [10u8, 20, 30, 40, 50, 60, 70, 81];
    let coords = [(0, 0), (1, 0), (2, 0), (0, 1), (2, 1), (0, 2), (1, 2), (2, 2)];
    for (i, &(x, y)) in coords.iter().enumerate() {
        put(&mut img, x, y, [reds[i], 0, 0, 255]);
    }
    put(&mut img, 1, 1, [0, 0, 0, 0]);
    let rounds = converge(&mut img);
    assert_eq!(rounds, 1);
    let sum: u32 = reds.iter().map(|&r| r as u32).sum();
    assert_eq!(get(&img, 1, 1), [(sum / 8) as u8, 0, 0, 255]);
}

#[test]
fn commit_raises_opaque_count_by_change_total() {
    // One scan-and-commit round turns exactly the proposed pixels opaque:
    // the scan addresses each pixel once and only transparent ones.
    let mut img = solid(6, 6, [0, 0, 0, 0]);
    for x in 0..6 {
        put(&mut img, x, 0, [90, 10, 30, 255]);
        put(&mut img, x, 1, [20, 80, 40, 255]);
    }
    let before = count_opaque_pixels(&img);
    let vs = scan_step(&img);
    let total: usize = vs.iter().map(|v| v.len()).sum();
    assert!(total > 0);
    apply_changes(&mut img, &vs);
    assert_eq!(count_opaque_pixels(&img), before + total);
}
