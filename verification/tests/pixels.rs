use drm_grabber::image_decoder::{clamp, PixelAverage, Rgb565, RgbPixel, ToRgb, YUV420Pixel};

#[test]
fn clamp_limits_to_a_byte() {
    assert_eq!(clamp(-5), 0);
    assert_eq!(clamp(0), 0);
    assert_eq!(clamp(77), 77);
    assert_eq!(clamp(255), 255);
    assert_eq!(clamp(300), 255);
    assert_eq!(clamp(i32::MIN), 0);
    assert_eq!(clamp(i32::MAX), 255);
}

#[test]
fn rgb_pixel_is_passed_through() {
    assert_eq!(RgbPixel::new(1, 2, 3).rgb(), (1, 2, 3));
}

#[test]
fn yuv_black_white_and_grey() {
    assert_eq!(YUV420Pixel::new(16, 128, 128).rgb(), (0, 0, 0));
    assert_eq!(YUV420Pixel::new(235, 128, 128).rgb(), (255, 255, 255));
    // 298 * (126 - 16) + 128 = 32908, >> 8 = 128
    assert_eq!(YUV420Pixel::new(126, 128, 128).rgb(), (128, 128, 128));
}

#[test]
fn yuv_saturated_colours_clamp() {
    // Y = 0, Cb = 0, Cr = 255: red raw = (298*-16 + 409*127 + 128) >> 8 = 184,
    // green raw = (298*-16 + 100*128 - 208*127 + 128) >> 8 = -96 -> 0,
    // blue raw = (298*-16 - 516*128 + 128) >> 8 = -277 -> 0
    assert_eq!(YUV420Pixel::new(0, 0, 255).rgb(), (184, 0, 0));
    // Y = 255, Cb = 255, Cr = 0: red raw = (298*239 - 409*128 + 128) >> 8 = 74,
    // green = (71222 - 100*127 + 208*128 + 128) >> 8 = 337 -> 255,
    // blue = (71222 + 516*127 + 128) >> 8 = 534 -> 255
    assert_eq!(YUV420Pixel::new(255, 255, 0).rgb(), (74, 255, 255));
}

#[test]
fn rgb565_expands_channels() {
    assert_eq!(Rgb565::new(0x0000).rgb(), (0, 0, 0));
    assert_eq!(Rgb565::new(0xFFFF).rgb(), (255, 255, 255));
    assert_eq!(Rgb565::new(0xF800).rgb(), (255, 0, 0));
    assert_eq!(Rgb565::new(0x07E0).rgb(), (0, 255, 0));
    assert_eq!(Rgb565::new(0x001F).rgb(), (0, 0, 255));
    // r5 = 1 -> (527 + 23) >> 6 = 8; g6 = 1 -> (259 + 33) >> 6 = 4; b5 = 16 -> 132
    assert_eq!(Rgb565::new(0b00001_000001_10000).rgb(), (8, 4, 132));
}

#[test]
fn rgb565_rounds_to_nearest_eight_bit_value() {
    for v in 0..32u16 {
        let expected = ((510 * v as u32 + 31) / 62) as u8;
        assert_eq!(Rgb565::new(v << 11).rgb().0, expected);
        assert_eq!(Rgb565::new(v).rgb().2, expected);
    }
    for v in 0..64u16 {
        let expected = ((510 * v as u32 + 63) / 126) as u8;
        assert_eq!(Rgb565::new(v << 5).rgb().1, expected);
    }
}

#[test]
fn pixel_average_of_sixteen_equal_words() {
    let mut avg = PixelAverage::new();
    for _ in 0..16 {
        avg.add(0x0011_2233);
    }
    // blue is used for both red and blue
    assert_eq!(avg.rgb(), (0x33, 0x22, 0x33));
}

#[test]
fn pixel_average_rounds_down() {
    let mut avg = PixelAverage::new();
    for n in 0..16u32 {
        avg.add(n | (n << 8) | (0xFF << 16));
    }
    // sum of 0..16 is 120, 120 / 16 = 7
    assert_eq!(avg.rgb(), (7, 7, 7));
}

#[test]
fn pixel_average_of_nothing_is_black() {
    assert_eq!(PixelAverage::new().rgb(), (0, 0, 0));
}

#[test]
fn pixel_average_of_few_words_divides_by_sixteen() {
    let mut avg = PixelAverage::new();
    avg.add(0x00FF_FFFF);
    avg.add(0x00FF_FFFF);
    // 510 / 16 = 31
    assert_eq!(avg.rgb(), (31, 31, 31));
}

#[test]
fn pixel_average_holds_256_full_words() {
    let mut avg = PixelAverage::new();
    for _ in 0..256 {
        avg.add(0xFFFF_FFFF);
    }
    // red/blue lane: 256 * 0x00FF00FF = 0xFF00FF00, / 16 = 0x0FF00FF0, low byte 0xF0
    // green: 256 * 0xFF00 = 0xFF0000, / 16 = 0xFF000, >> 8 = 0xFF0, low byte 0xF0
    assert_eq!(avg.rgb(), (0xF0, 0xF0, 0xF0));
}

#[test]
fn neutral_chroma_gives_grey() {
    for y in 0..=255u8 {
        let (r, g, b) = YUV420Pixel::new(y, 128, 128).rgb();
        assert_eq!(r, g);
        assert_eq!(g, b);
    }
}

#[test]
fn brighter_luma_is_never_darker() {
    for &(u, v) in &[(0u8, 0u8), (128, 128), (255, 0), (0, 255), (90, 200)] {
        let mut prev = YUV420Pixel::new(0, u, v).rgb();
        for y in 1..=255u8 {
            let cur = YUV420Pixel::new(y, u, v).rgb();
            assert!(prev.0 <= cur.0 && prev.1 <= cur.1 && prev.2 <= cur.2);
            prev = cur;
        }
    }
}
