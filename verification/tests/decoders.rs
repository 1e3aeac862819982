use drm_grabber::image_decoder::{
    decode_image, decode_image_multichannel, decode_small_image_multichannel,
    decode_tiled_small_image, rgb565_to_rgb888, to_image, ToRgb, YUV420Pixel,
};
use drm_grabber::rgb_image::Canvas;
use image::RgbImage;

/// The decoded image, rebuilt from the canvas's size and bytes.
fn image(c: Canvas) -> RgbImage {
    let (w, h) = c.dimensions();
    RgbImage::from_raw(w, h, c.into_raw()).unwrap()
}

fn px(img: &RgbImage, x: u32, y: u32) -> [u8; 3] {
    img.get_pixel(x, y).0
}

#[test]
fn decode_image_reads_xrgb_rows() {
    // two pixels per row, rows 12 bytes (3 words) apart
    let mapping = [0x00FF_0000u32, 0x0000_FF00, 0xDEAD_BEEF, 0x0012_3456, 0x00AB_CDEF, 0];
    let img = image(decode_image(&mapping, 12, (2, 2)));
    assert_eq!(img.dimensions(), (2, 2));
    assert_eq!(px(&img, 0, 0), [0xFF, 0, 0]);
    assert_eq!(px(&img, 1, 0), [0, 0xFF, 0]);
    assert_eq!(px(&img, 0, 1), [0x12, 0x34, 0x56]);
    assert_eq!(px(&img, 1, 1), [0xAB, 0xCD, 0xEF]);
}

#[test]
fn decode_image_ignores_the_top_byte() {
    let img = image(decode_image(&[0xDEAD_BEEF], 4, (1, 1)));
    assert_eq!(px(&img, 0, 0), [0xAD, 0xBE, 0xEF]);
}

#[test]
fn decode_image_of_empty_size() {
    let img = image(decode_image(&[], 0, (0, 5)));
    assert_eq!(img.dimensions(), (0, 5));
}

#[test]
fn rgb565_rows_with_pitch() {
    // 2 x 2 image, rows 6 bytes (3 words) apart
    let mapping = [0xF800u16, 0x07E0, 0x1234, 0x001F, 0xFFFF, 0x1234];
    let img = image(rgb565_to_rgb888(&mapping, 6, (2, 2)));
    assert_eq!(img.dimensions(), (2, 2));
    assert_eq!(px(&img, 0, 0), [255, 0, 0]);
    assert_eq!(px(&img, 1, 0), [0, 255, 0]);
    assert_eq!(px(&img, 0, 1), [0, 0, 255]);
    assert_eq!(px(&img, 1, 1), [255, 255, 255]);
}

#[test]
fn multichannel_shares_chroma_per_block() {
    // 3 x 3 luma, pitch 4; chroma 2 x 2, pitch 2
    let luma = [16u8, 235, 16, 0, 235, 16, 235, 0, 126, 126, 126, 0];
    let cb = [128u8, 128, 128, 128];
    let cr = [128u8, 128, 128, 255];
    let img = image(decode_image_multichannel([&luma, &cb, &cr], (3, 3), [4, 2, 2]));
    assert_eq!(img.dimensions(), (3, 3));
    assert_eq!(px(&img, 0, 0), [0, 0, 0]);
    assert_eq!(px(&img, 1, 0), [255, 255, 255]);
    assert_eq!(px(&img, 2, 0), [0, 0, 0]);
    assert_eq!(px(&img, 0, 1), [255, 255, 255]);
    assert_eq!(px(&img, 0, 2), [128, 128, 128]);
    // (2, 2) uses chroma (1, 1): Cr = 255
    let expected = ToRgb::rgb(&YUV420Pixel::new(126, 128, 255));
    assert_eq!(px(&img, 2, 2), [expected.0, expected.1, expected.2]);
}

#[test]
fn small_multichannel_averages_luma() {
    // 4 x 2 luma -> 2 x 1 image, pitch 4
    let luma = [16u8, 16, 235, 235, 16, 20, 235, 235];
    let cb = [128u8, 128];
    let cr = [128u8, 128];
    let img = image(decode_small_image_multichannel([&luma, &cb, &cr], (4, 2), [4, 1, 1]));
    assert_eq!(img.dimensions(), (2, 1));
    // (16 + 16 + 16 + 20) / 4 = 17
    let expected = ToRgb::rgb(&YUV420Pixel::new(17, 128, 128));
    assert_eq!(px(&img, 0, 0), [expected.0, expected.1, expected.2]);
    assert_eq!(px(&img, 1, 0), [255, 255, 255]);
}

#[test]
fn small_multichannel_of_odd_size() {
    let luma = [50u8; 12];
    let cb = [128u8; 2];
    let cr = [128u8; 2];
    let img = image(decode_small_image_multichannel([&luma, &cb, &cr], (3, 3), [4, 1, 1]));
    assert_eq!(img.dimensions(), (1, 1));
}

/// The words of one 32-pixel tile of the reduced format in which each group
/// of 16 words has the value of its group index.
fn numbered_groups(tiles: u32) -> Vec<u32> {
    let mut v = Vec::new();
    for g in 0..64 * tiles {
        for _ in 0..16 {
            v.push(g & 0xFF | (g & 0xFF) << 8);
        }
    }
    v
}

#[test]
fn tiled_small_places_blocks_in_tile_order() {
    let mapping = numbered_groups(2);
    let img = image(decode_tiled_small_image(&mapping, 32, (2, 1), (64, 32)));
    assert_eq!(img.dimensions(), (16, 8));
    // blue (and red) and green are the group index
    let g = |x, y| px(&img, x, y)[1] as u32;
    // tile 0, first block is the top-left 4 x 4 square, row-major
    assert_eq!(g(0, 0), 0);
    assert_eq!(g(3, 0), 3);
    assert_eq!(g(0, 1), 4);
    assert_eq!(g(3, 3), 15);
    // second block is bottom-left, third bottom-right, fourth top-right
    assert_eq!(g(0, 4), 16);
    assert_eq!(g(4, 4), 32);
    assert_eq!(g(4, 0), 48);
    assert_eq!(g(7, 3), 63);
    // tile 1 sits to the right
    assert_eq!(g(8, 0), 64);
    assert_eq!(px(&img, 8, 0), [64, 64, 64]);
}

#[test]
fn tiled_small_odd_rows_run_backwards() {
    let mapping = numbered_groups(4);
    let img = image(decode_tiled_small_image(&mapping, 32, (2, 2), (64, 64)));
    assert_eq!(img.dimensions(), (16, 16));
    let g = |x, y| px(&img, x, y)[1] as u32;
    // second tile row starts at the right-hand tile, with its bottom-right block
    assert_eq!(g(12, 12), 128);
    assert_eq!(g(12, 8), 128 + 16);
    assert_eq!(g(8, 8), 128 + 32);
    assert_eq!(g(8, 12), 128 + 48);
    // then the left-hand tile
    assert_eq!(g(4, 12), 192);
    assert_eq!(g(0, 8), 192 + 32);
}

#[test]
fn tiled_small_is_cropped() {
    let mapping = numbered_groups(2);
    let img = image(decode_tiled_small_image(&mapping, 32, (2, 1), (40, 20)));
    assert_eq!(img.dimensions(), (10, 5));
    assert_eq!(px(&img, 8, 0)[1], 64);
}

/// Bytes of `tiles` full-format tiles in which pixel `k` is `(k % 256, k / 256, 7)`.
fn numbered_pixels(tiles: u32) -> Vec<u8> {
    let mut v = Vec::new();
    for k in 0..1024 * tiles {
        v.push(7); // blue
        v.push((k / 256) as u8); // green
        v.push((k % 256) as u8); // red
        v.push(0);
    }
    v
}

#[test]
fn tiled_places_pixels_in_tile_order() {
    let mapping = numbered_pixels(2);
    let img = image(to_image(&mapping, 32, (2, 1), (64, 32)));
    assert_eq!(img.dimensions(), (64, 32));
    let k = |x, y| {
        let p = px(&img, x, y);
        assert_eq!(p[2], 7);
        p[0] as u32 + 256 * p[1] as u32
    };
    assert_eq!(k(0, 0), 0);
    assert_eq!(k(3, 0), 3);
    assert_eq!(k(0, 1), 4);
    // second 4 x 4 square of the first band
    assert_eq!(k(4, 0), 16);
    // second band
    assert_eq!(k(0, 4), 64);
    // blocks: bottom-left, bottom-right, top-right
    assert_eq!(k(0, 16), 256);
    assert_eq!(k(16, 16), 512);
    assert_eq!(k(16, 0), 768);
    assert_eq!(k(31, 15), 1023);
    // second tile
    assert_eq!(k(32, 0), 1024);
}

#[test]
fn tiled_odd_rows_run_backwards_and_crop() {
    let mapping = numbered_pixels(4);
    let img = image(to_image(&mapping, 32, (2, 2), (50, 40)));
    assert_eq!(img.dimensions(), (50, 40));
    let k = |x, y| {
        let p = px(&img, x, y);
        p[0] as u32 + 256 * p[1] as u32
    };
    // tile row 1 starts with the right-hand tile's bottom-right block
    assert_eq!(k(48, 48 - 16 + 0), 2048 + 256);
    assert_eq!(k(32, 32), 2048 + 512);
    assert_eq!(k(0, 32), 3072 + 512);
}

#[test]
fn tiled_writes_every_pixel_once() {
    let mapping = numbered_pixels(6);
    let img = image(to_image(&mapping, 32, (3, 2), (96, 64)));
    let mut seen = vec![false; 6 * 1024];
    for y in 0..64 {
        for x in 0..96 {
            let p = px(&img, x, y);
            let k = p[0] as usize + 256 * p[1] as usize;
            assert!(!seen[k]);
            seen[k] = true;
        }
    }
    assert!(seen.iter().all(|&s| s));
}

#[test]
fn tiled_small_writes_every_group_once() {
    let mapping = numbered_groups(4);
    let img = image(decode_tiled_small_image(&mapping, 32, (2, 2), (64, 64)));
    let mut seen = vec![false; 4 * 64];
    for y in 0..16 {
        for x in 0..16 {
            let k = px(&img, x, y)[1] as usize;
            assert!(!seen[k]);
            seen[k] = true;
        }
    }
    assert!(seen.iter().all(|&s| s));
}

#[test]
fn tiled_with_wider_tiles_leaves_gaps_black() {
    // 64-pixel tiles: each 32 x 32 tile of pixels lands in the top-left of a 64 x 64 cell
    let mapping = numbered_pixels(1);
    let img = image(to_image(&mapping, 64, (1, 1), (64, 64)));
    assert_eq!(img.dimensions(), (64, 64));
    // bottom-right block (third visited), last pixel: 512 + 255 = 767
    assert_eq!(px(&img, 31, 31), [255, 2, 7]);
    assert_eq!(px(&img, 40, 40), [0, 0, 0]);
}

#[test]
fn canvas_bytes_are_row_major_rgb() {
    let c = decode_image(&[0x0001_0203, 0x0004_0506, 0x0007_0809, 0x000A_0B0C], 8, (2, 2));
    assert_eq!(c.dimensions(), (2, 2));
    assert_eq!(c.into_raw(), vec![1, 2, 3, 4, 5, 6, 7, 8, 9, 10, 11, 12]);
}

/// Deterministic pseudo-random words.
fn mixed_words(n: usize, seed: u32) -> Vec<u32> {
    let mut x = seed;
    (0..n)
        .map(|_| {
            x ^= x << 13;
            x ^= x >> 17;
            x ^= x << 5;
            x
        })
        .collect()
}

#[test]
fn tiled_small_is_square_mean_of_tiled() {
    let tiles = (2, 2);
    let words = mixed_words(1024 * 4, 0x1234_5678);
    let bytes: Vec<u8> = words.iter().flat_map(|w| w.to_le_bytes()).collect();
    let small = image(decode_tiled_small_image(&words, 32, tiles, (64, 64)));
    let big = image(to_image(&bytes, 32, tiles, (64, 64)));
    for y in 0..16 {
        for x in 0..16 {
            let (mut b, mut g) = (0u32, 0u32);
            for j in 0..4 {
                for i in 0..4 {
                    let p = px(&big, 4 * x + i, 4 * y + j);
                    b += p[2] as u32;
                    g += p[1] as u32;
                }
            }
            assert_eq!(px(&small, x, y), [(b / 16) as u8, (g / 16) as u8, (b / 16) as u8]);
        }
    }
}

#[test]
fn tiled_small_reads_only_low_bytes() {
    let tiles = (2, 1);
    let words = mixed_words(1024 * 2, 0x9E37_79B9);
    let other: Vec<u32> = words
        .iter()
        .zip(mixed_words(1024 * 2, 0x0BAD_F00D))
        .map(|(w, r)| (w & 0xFFFF) | (r & 0xFFFF_0000))
        .collect();
    let a = image(decode_tiled_small_image(&words, 32, tiles, (64, 32)));
    let b = image(decode_tiled_small_image(&other, 32, tiles, (64, 32)));
    assert_eq!(a.as_raw(), b.as_raw());
    for p in a.pixels() {
        assert_eq!(p.0[0], p.0[2]);
    }
}
