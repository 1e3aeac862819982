//! Conversions from the framebuffer pixel formats to 8-bit RGB.
use crate::rgb_image::{
    blank_pixels, canvas_dims, canvas_pixels, crop_canvas, crop_pixels, lemma_prefix_empty,
    lemma_prefix_full, lemma_prefix_next_row, lemma_prefix_step, new_canvas, put_canvas_pixel,
    rgb_buffer_fits, row_major_prefix, Canvas,
};
use crate::tiled_layout::{
    block16_offset, block_offset, lemma_block16_offset, lemma_block_positions,
    lemma_full_square_of_small_pixel, lemma_small_block_positions, lemma_small_tiles_cover_image_once, lemma_tile_start_bound,
    lemma_tiles_cover_image_once, small_tile_index, small_tile_position, tile_column, tile_index,
    tile_position, tiles_fit,
};
use vstd::arithmetic::div_mod::lemma_div_is_ordered;
use vstd::prelude::*;

verus! {

// ---------------------------------------------------------------------------
// Averaging of packed XRGB words
// ---------------------------------------------------------------------------

/// Sum of the red and blue bytes of the words, each kept in its own lane
/// (`word & 0x00FF00FF`).
pub open spec fn rb_total(words: Seq<u32>) -> int
    decreases words.len(),
{
    if words.len() == 0 {
        0
    } else {
        rb_total(words.drop_last()) + (words.last() & 0x00FF00FFu32)
    }
}

/// Sum of the green bytes of the words, kept in place (`word & 0x0000FF00`).
pub open spec fn g_total(words: Seq<u32>) -> int
    decreases words.len(),
{
    if words.len() == 0 {
        0
    } else {
        g_total(words.drop_last()) + (words.last() & 0x0000FF00u32)
    }
}

/// Sum of the byte at bit position `shift` of each word.
pub open spec fn channel_total(words: Seq<u32>, shift: u32) -> int
    decreases words.len(),
{
    if words.len() == 0 {
        0
    } else {
        channel_total(words.drop_last(), shift) + ((words.last() >> shift) & 0xFFu32)
    }
}

/// The colour `PixelAverage::rgb` reports for the words added: the low byte
/// of the red/blue lane sum divided by 16 as red and blue, the green sum
/// divided by 16 as green.
pub open spec fn average_color(words: Seq<u32>) -> (u8, u8, u8) {
    let rb = ((rb_total(words) / 16) % 256) as u8;
    (rb, ((g_total(words) / 16 / 256) % 256) as u8, rb)
}

/// Accumulates packed `0x00RRGGBB` words to average them in groups of 16.
pub struct PixelAverage {
    avg_rb: u32,
    avg_g: u32,
    words: Ghost<Seq<u32>>,
}

impl View for PixelAverage {
    type V = Seq<u32>;

    /// The words added so far, in order.
    closed spec fn view(&self) -> Seq<u32> {
        self.words@
    }
}

impl PixelAverage {
    #[verifier::type_invariant]
    spec fn sums_match(self) -> bool {
        &&& self.avg_rb == rb_total(self.words@)
        &&& self.avg_g == g_total(self.words@)
    }

    /// An empty accumulator.
    pub fn new() -> (r: Self)
        ensures
            r@ == Seq::<u32>::empty(),
    {
        Self { avg_rb: 0, avg_g: 0, words: Ghost(Seq::empty()) }
    }

    /// Adds one packed word; its lane sums must still fit in 32 bits.
    pub fn add(&mut self, rgb: u32)
        requires
            rb_total(old(self)@.push(rgb)) <= u32::MAX,
            g_total(old(self)@.push(rgb)) <= u32::MAX,
        ensures
            final(self)@ == old(self)@.push(rgb),
    {
        proof {
            use_type_invariant(&*self);
            assert(self.words@.push(rgb).drop_last() =~= self.words@);
        }
        let ghost new_words = self.words@.push(rgb);
        *self = PixelAverage {
            avg_rb: self.avg_rb + (rgb & 0x00FF00FF),
            avg_g: self.avg_g + (rgb & 0x0000FF00),
            words: Ghost(new_words),
        };
    }

    /// The averaged colour.
    pub fn rgb(self) -> (px: (u8, u8, u8))
        ensures
            px == average_color(self@),
    {
        proof {
            use_type_invariant(&self);
        }
        let q: u32 = self.avg_rb / 16;
        let gq: u32 = self.avg_g / 16;
        let g: u32 = gq >> 8;
        assert(q as u8 == q % 256) by (bit_vector);
        assert(g == gq / 256) by (bit_vector)
            requires
                g == gq >> 8u32,
        ;
        assert(g as u8 == g % 256) by (bit_vector);
        let rb = q as u8;
        (rb, g as u8, rb)
    }
}

/// The red/blue lane sum holds the red total above bit 16 and the blue total
/// below it; the green sum holds the green total shifted by 8; each channel
/// total is at most 255 per word.
pub proof fn lemma_lane_totals(words: Seq<u32>)
    ensures
        rb_total(words) == 65536 * channel_total(words, 16) + channel_total(words, 0),
        g_total(words) == 256 * channel_total(words, 8),
        0 <= channel_total(words, 0) <= 255 * words.len(),
        0 <= channel_total(words, 8) <= 255 * words.len(),
        0 <= channel_total(words, 16) <= 255 * words.len(),
    decreases words.len(),
{
    if words.len() > 0 {
        lemma_lane_totals(words.drop_last());
        let w = words.last();
        assert((w & 0x00FF00FFu32) == ((w >> 16u32) & 0xFFu32) * 65536u32 + ((w >> 0u32)
            & 0xFFu32)) by (bit_vector);
        assert((w & 0x0000FF00u32) == ((w >> 8u32) & 0xFFu32) * 256u32) by (bit_vector);
        assert(((w >> 0u32) & 0xFFu32) <= 255u32) by (bit_vector);
        assert(((w >> 8u32) & 0xFFu32) <= 255u32) by (bit_vector);
        assert(((w >> 16u32) & 0xFFu32) <= 255u32) by (bit_vector);
    }
}

/// Up to 256 words can be accumulated without a lane sum leaving 32 bits.
pub proof fn lemma_totals_fit(words: Seq<u32>)
    requires
        words.len() <= 256,
    ensures
        0 <= rb_total(words) <= u32::MAX,
        0 <= g_total(words) <= u32::MAX,
{
    lemma_lane_totals(words);
}

/// Averaging at most 16 words gives, per channel, the channel total divided
/// by 16 (rounded down): blue in the first and third place, green in the
/// second.
pub proof fn lemma_average_of_sixteen(words: Seq<u32>)
    requires
        words.len() <= 16,
    ensures
        average_color(words) == (
            (channel_total(words, 0) / 16) as u8,
            (channel_total(words, 8) / 16) as u8,
            (channel_total(words, 0) / 16) as u8,
        ),
{
    lemma_lane_totals(words);
    let r = channel_total(words, 16);
    let b = channel_total(words, 0);
    let g = channel_total(words, 8);
    assert((65536 * r + b) / 16 == 4096 * r + b / 16) by (nonlinear_arith)
        requires
            r >= 0,
            b >= 0,
    ;
    assert((4096 * r + b / 16) % 256 == b / 16) by (nonlinear_arith)
        requires
            r >= 0,
            0 <= b <= 4080,
    ;
    assert((256 * g) / 16 / 256 == g / 16) by (nonlinear_arith)
        requires
            g >= 0,
    ;
}

// ---------------------------------------------------------------------------
// Pixel types
// ---------------------------------------------------------------------------

/// A pixel that can be shown as 8-bit `(r, g, b)`.
pub trait ToRgb {
    /// The colour `rgb` returns.
    spec fn spec_rgb(&self) -> (u8, u8, u8);

    fn rgb(&self) -> (px: (u8, u8, u8))
        ensures
            px == self.spec_rgb(),
    ;
}

/// A pixel already in 8-bit RGB.
pub struct RgbPixel {
    dat: [u8; 3],
}

impl View for RgbPixel {
    type V = (u8, u8, u8);

    closed spec fn view(&self) -> (u8, u8, u8) {
        (self.dat[0], self.dat[1], self.dat[2])
    }
}

impl RgbPixel {
    pub fn new(r: u8, g: u8, b: u8) -> (p: Self)
        ensures
            p@ == (r, g, b),
    {
        Self { dat: [r, g, b] }
    }
}

impl ToRgb for RgbPixel {
    open spec fn spec_rgb(&self) -> (u8, u8, u8) {
        self@
    }

    fn rgb(&self) -> (px: (u8, u8, u8)) {
        (self.dat[0], self.dat[1], self.dat[2])
    }
}

/// A pixel given by its luma and two chroma samples `(Y, Cb, Cr)`.
pub struct YUV420Pixel {
    dat: [u8; 3],
}

impl View for YUV420Pixel {
    type V = (u8, u8, u8);

    closed spec fn view(&self) -> (u8, u8, u8) {
        (self.dat[0], self.dat[1], self.dat[2])
    }
}

impl YUV420Pixel {
    /// The pixel with components `(c, d, e)`.
    pub closed spec fn from_components(c: u8, d: u8, e: u8) -> Self {
        Self { dat: [c, d, e] }
    }

    pub proof fn lemma_from_components(c: u8, d: u8, e: u8)
        ensures
            Self::from_components(c, d, e)@ == (c, d, e),
    {
    }

    pub fn new(c: u8, d: u8, e: u8) -> (p: Self)
        ensures
            p@ == (c, d, e),
            p == Self::from_components(c, d, e),
    {
        Self { dat: [c, d, e] }
    }
}

/// `v` limited to `0..=255`.
pub open spec fn clamp_value(v: int) -> u8 {
    if v < 0 {
        0
    } else if v > 255 {
        255
    } else {
        v as u8
    }
}

/// Limits `v` to the range of a byte.
pub fn clamp(v: i32) -> (r: u8)
    ensures
        r == clamp_value(v as int),
{
    v.max(0).min(255) as u8
}

/// With neutral chroma (Cb = Cr = 128) the colour is a grey: all three
/// channels equal the scaled luma.
pub proof fn lemma_neutral_chroma_is_grey(y: u8)
    ensures
        yuv_to_rgb(y, 128, 128) == (
            clamp_value((298 * (y - 16) + 128) / 256),
            clamp_value((298 * (y - 16) + 128) / 256),
            clamp_value((298 * (y - 16) + 128) / 256),
        ),
{
}

/// Limited-range BT.601 YCbCr to RGB in 8.8 fixed point, rounded and clamped.
pub open spec fn yuv_to_rgb(y: u8, u: u8, v: u8) -> (u8, u8, u8) {
    let c = 298 * (y - 16);
    let d = u - 128;
    let e = v - 128;
    (
        clamp_value((c + 409 * e + 128) / 256),
        clamp_value((c - 100 * d - 208 * e + 128) / 256),
        clamp_value((c + 516 * d + 128) / 256),
    )
}

/// `clamp_value` keeps order.
proof fn lemma_clamp_monotone(a: int, b: int)
    requires
        a <= b,
    ensures
        clamp_value(a) <= clamp_value(b),
{
}

/// A brighter luma sample never gives a darker channel.
pub proof fn lemma_luma_monotone(y1: u8, y2: u8, u: u8, v: u8)
    requires
        y1 <= y2,
    ensures
        yuv_to_rgb(y1, u, v).0 <= yuv_to_rgb(y2, u, v).0,
        yuv_to_rgb(y1, u, v).1 <= yuv_to_rgb(y2, u, v).1,
        yuv_to_rgb(y1, u, v).2 <= yuv_to_rgb(y2, u, v).2,
{
    let c1 = 298 * (y1 - 16);
    let c2 = 298 * (y2 - 16);
    let d = u - 128;
    let e = v - 128;
    lemma_div_is_ordered(c1 + 409 * e + 128, c2 + 409 * e + 128, 256);
    lemma_div_is_ordered(c1 - 100 * d - 208 * e + 128, c2 - 100 * d - 208 * e + 128, 256);
    lemma_div_is_ordered(c1 + 516 * d + 128, c2 + 516 * d + 128, 256);
    lemma_clamp_monotone((c1 + 409 * e + 128) / 256, (c2 + 409 * e + 128) / 256);
    lemma_clamp_monotone(
        (c1 - 100 * d - 208 * e + 128) / 256,
        (c2 - 100 * d - 208 * e + 128) / 256,
    );
    lemma_clamp_monotone((c1 + 516 * d + 128) / 256, (c2 + 516 * d + 128) / 256);
}

impl ToRgb for YUV420Pixel {
    open spec fn spec_rgb(&self) -> (u8, u8, u8) {
        yuv_to_rgb(self@.0, self@.1, self@.2)
    }

    fn rgb(&self) -> (px: (u8, u8, u8)) {
        let y = self.dat[0] as i32;
        let u = self.dat[1] as i32;
        let v = self.dat[2] as i32;
        let rr: i32 = 298 * (y - 16) + 409 * (v - 128) + 128;
        let gg: i32 = 298 * (y - 16) - 100 * (u - 128) - 208 * (v - 128) + 128;
        let bb: i32 = 298 * (y - 16) + 516 * (u - 128) + 128;
        assert(rr >> 8i32 == rr / 256) by (bit_vector);
        assert(gg >> 8i32 == gg / 256) by (bit_vector);
        assert(bb >> 8i32 == bb / 256) by (bit_vector);
        let r = clamp(rr >> 8);
        let g = clamp(gg >> 8);
        let b = clamp(bb >> 8);
        (r, g, b)
    }
}

/// A 16-bit `RRRRRGGGGGGBBBBB` pixel.
pub struct Rgb565 {
    dat: u16,
}

impl View for Rgb565 {
    type V = u16;

    closed spec fn view(&self) -> u16 {
        self.dat
    }
}

impl Rgb565 {
    pub fn new(dat: u16) -> (p: Self)
        ensures
            p@ == dat,
    {
        Self { dat }
    }
}

/// Each 5- or 6-bit channel of an RGB565 word widened to 8 bits.
pub open spec fn rgb565_to_rgb(v: u16) -> (u8, u8, u8) {
    (
        (((v / 2048) * 527 + 23) / 64) as u8,
        ((((v / 32) % 64) * 259 + 33) / 64) as u8,
        (((v % 32) * 527 + 23) / 64) as u8,
    )
}

impl ToRgb for Rgb565 {
    open spec fn spec_rgb(&self) -> (u8, u8, u8) {
        rgb565_to_rgb(self@)
    }

    fn rgb(&self) -> (px: (u8, u8, u8)) {
        let d = self.dat;
        let r5: u16 = d >> 11;
        let g6: u16 = d >> 5 & 0x3F;
        let b5: u16 = d & 0x1F;
        assert(r5 == d / 2048 && r5 < 32) by (bit_vector)
            requires
                r5 == d >> 11u16,
        ;
        assert(g6 == (d / 32) % 64) by (bit_vector)
            requires
                g6 == d >> 5u16 & 0x3Fu16,
        ;
        assert(b5 == d % 32) by (bit_vector)
            requires
                b5 == d & 0x1Fu16,
        ;
        let r_wide: u16 = r5 * 527 + 23;
        let g_wide: u16 = g6 * 259 + 33;
        let b_wide: u16 = b5 * 527 + 23;
        let r8: u16 = r_wide >> 6;
        let g8: u16 = g_wide >> 6;
        let b8: u16 = b_wide >> 6;
        assert(r8 == r_wide / 64 && g8 == g_wide / 64 && b8 == b_wide / 64) by (bit_vector)
            requires
                r8 == r_wide >> 6u16,
                g8 == g_wide >> 6u16,
                b8 == b_wide >> 6u16,
        ;
        (r8 as u8, g8 as u8, b8 as u8)
    }
}

/// The widened channels of RGB565 are the nearest 8-bit values: a 5-bit
/// channel `x` becomes `x * 255 / 31` and a 6-bit channel `x * 255 / 63`,
/// rounded half up; so 0 stays 0 and a full channel becomes 255.
pub proof fn lemma_rgb565_rounds_to_nearest(v: u16)
    ensures
        rgb565_to_rgb(v).0 == (510 * (v / 2048) + 31) / 62,
        rgb565_to_rgb(v).1 == (510 * ((v / 32) % 64) + 63) / 126,
        rgb565_to_rgb(v).2 == (510 * (v % 32) + 31) / 62,
{
    let r5: u16 = v / 2048;
    let g6: u16 = (v / 32) % 64;
    let b5: u16 = v % 32;
    assert(r5 < 32 && g6 < 64 && b5 < 32);
    assert(forall|x: u16|
        x < 32 ==> #[trigger] ((x * 527 + 23) / 64) == (510 * x + 31) / 62) by (bit_vector);
    assert(forall|x: u16|
        x < 64 ==> #[trigger] ((x * 259 + 33) / 64) == (510 * x + 63) / 126) by (bit_vector);
    assert(((r5 * 527 + 23) / 64) == (510 * r5 + 31) / 62);
    assert(((g6 * 259 + 33) / 64) == (510 * g6 + 63) / 126);
    assert(((b5 * 527 + 23) / 64) == (510 * b5 + 31) / 62);
}

// ---------------------------------------------------------------------------
// Linear framebuffers
// ---------------------------------------------------------------------------

/// Row-major indexing `y * pitch + x` stays below `len` and inside `u32`
/// for every pixel of a `size.0` x `size.1` image.
pub open spec fn linear_layout_fits(len: int, pitch: int, size: (u32, u32)) -> bool {
    size.0 == 0 || size.1 == 0 || {
        let last = (size.1 - 1) * pitch + (size.0 - 1);
        last < len && last <= u32::MAX
    }
}

/// Indexes of pixels inside the image are bounded by the last one.
proof fn lemma_linear_index_bound(x: u32, y: u32, pitch: int, size: (u32, u32))
    requires
        x < size.0,
        y < size.1,
        pitch >= 0,
    ensures
        0 <= y * pitch + x <= (size.1 - 1) * pitch + (size.0 - 1),
{
    assert(y * pitch <= (size.1 - 1) * pitch) by (nonlinear_arith)
        requires
            0 <= y <= size.1 - 1,
            pitch >= 0,
    ;
    assert(0 <= y * pitch) by (nonlinear_arith)
        requires
            0 <= y,
            pitch >= 0,
    ;
}

/// The colour of an `0x00RRGGBB` word.
pub open spec fn xrgb_to_rgb(v: u32) -> (u8, u8, u8) {
    (((v / 0x10000) % 256) as u8, ((v / 0x100) % 256) as u8, (v % 256) as u8)
}

/// The image `decode_image` produces.
pub open spec fn xrgb_pixels(mapping: Seq<u32>, pitch: u32, size: (u32, u32)) -> Map<
    (u32, u32),
    (u8, u8, u8),
> {
    Map::new(
        |p: (u32, u32)| p.0 < size.0 && p.1 < size.1,
        |p: (u32, u32)| xrgb_to_rgb(mapping[p.1 * (pitch / 4) + p.0]),
    )
}

/// Decodes a linear framebuffer of `0x00RRGGBB` words whose rows are `pitch`
/// bytes apart.
pub fn decode_image(mapping: &[u32], pitch: u32, size: (u32, u32)) -> (img: Canvas)
    requires
        linear_layout_fits(mapping@.len() as int, (pitch / 4) as int, size),
        rgb_buffer_fits(size.0, size.1),
    ensures
        canvas_dims(img) == size,
        canvas_pixels(img) == xrgb_pixels(mapping@, pitch, size),
{
    let mut img = new_canvas(size.0, size.1);
    let bytepitch = pitch / 4;
    let ghost target = xrgb_pixels(mapping@, pitch, size);
    proof {
        lemma_prefix_empty(target, size.0, size.1);
    }
    for y in 0..size.1
        invariant
            bytepitch == pitch / 4,
            target == xrgb_pixels(mapping@, pitch, size),
            linear_layout_fits(mapping@.len() as int, bytepitch as int, size),
            canvas_dims(img) == size,
            canvas_pixels(img) == row_major_prefix(target, size.0, size.1, 0, y as int),
    {
        for x in 0..size.0
            invariant
                y < size.1,
                bytepitch == pitch / 4,
                target == xrgb_pixels(mapping@, pitch, size),
                linear_layout_fits(mapping@.len() as int, bytepitch as int, size),
                canvas_dims(img) == size,
                canvas_pixels(img) == row_major_prefix(target, size.0, size.1, x as int, y as int),
        {
            proof {
                lemma_linear_index_bound(x, y, bytepitch as int, size);
            }
            let offset = (y * bytepitch + x) as usize;
            let v = mapping[offset];
            assert((v >> 16u32) as u8 == (v / 0x10000) % 256 && (v >> 8u32) as u8 == (v / 0x100)
                % 256 && v as u8 == v % 256) by (bit_vector);
            let px = ((v >> 16) as u8, (v >> 8) as u8, v as u8);
            proof {
                lemma_prefix_step(target, size.0, size.1, x, y);
            }
            put_canvas_pixel(&mut img, x, y, px);
        }
        proof {
            lemma_prefix_next_row(target, size.0, size.1, y);
        }
    }
    proof {
        lemma_prefix_full(target, size.0, size.1);
    }
    img
}

/// The image `rgb565_to_rgb888` produces.
pub open spec fn rgb565_pixels(mapping: Seq<u16>, pitch: u32, size: (u32, u32)) -> Map<
    (u32, u32),
    (u8, u8, u8),
> {
    Map::new(
        |p: (u32, u32)| p.0 < size.0 && p.1 < size.1,
        |p: (u32, u32)| rgb565_to_rgb(mapping[p.1 * (pitch / 2) + p.0]),
    )
}

/// Decodes a linear framebuffer of RGB565 words whose rows are `pitch` bytes
/// apart.
pub fn rgb565_to_rgb888(mapping: &[u16], pitch: u32, size: (u32, u32)) -> (img: Canvas)
    requires
        linear_layout_fits(mapping@.len() as int, (pitch / 2) as int, size),
        rgb_buffer_fits(size.0, size.1),
    ensures
        canvas_dims(img) == size,
        canvas_pixels(img) == rgb565_pixels(mapping@, pitch, size),
{
    let mut img = new_canvas(size.0, size.1);
    let bytepitch = pitch / 2;
    let ghost target = rgb565_pixels(mapping@, pitch, size);
    proof {
        lemma_prefix_empty(target, size.0, size.1);
    }
    for y in 0..size.1
        invariant
            bytepitch == pitch / 2,
            target == rgb565_pixels(mapping@, pitch, size),
            linear_layout_fits(mapping@.len() as int, bytepitch as int, size),
            canvas_dims(img) == size,
            canvas_pixels(img) == row_major_prefix(target, size.0, size.1, 0, y as int),
    {
        for x in 0..size.0
            invariant
                y < size.1,
                bytepitch == pitch / 2,
                target == rgb565_pixels(mapping@, pitch, size),
                linear_layout_fits(mapping@.len() as int, bytepitch as int, size),
                canvas_dims(img) == size,
                canvas_pixels(img) == row_major_prefix(target, size.0, size.1, x as int, y as int),
        {
            proof {
                lemma_linear_index_bound(x, y, bytepitch as int, size);
            }
            let offset = (y * bytepitch + x) as usize;
            let v = Rgb565::new(mapping[offset]);
            let px = v.rgb();
            proof {
                lemma_prefix_step(target, size.0, size.1, x, y);
            }
            put_canvas_pixel(&mut img, x, y, px);
        }
        proof {
            lemma_prefix_next_row(target, size.0, size.1, y);
        }
    }
    proof {
        lemma_prefix_full(target, size.0, size.1);
    }
    img
}

// ---------------------------------------------------------------------------
// Planar YUV 4:2:0 framebuffers
// ---------------------------------------------------------------------------

/// Size of the chroma planes of a 4:2:0 image: half the luma size, rounded up.
pub open spec fn chroma_size(size: (u32, u32)) -> (u32, u32) {
    (((size.0 + 1) / 2) as u32, ((size.1 + 1) / 2) as u32)
}

/// Each plane of a 4:2:0 framebuffer can be read at every pixel.
pub open spec fn yuv420_layout_fits(
    mappings: [&[u8]; 3],
    size: (u32, u32),
    pitches: [u32; 3],
) -> bool {
    &&& linear_layout_fits(mappings[0]@.len() as int, pitches[0] as int, size)
    &&& linear_layout_fits(mappings[1]@.len() as int, pitches[1] as int, chroma_size(size))
    &&& linear_layout_fits(mappings[2]@.len() as int, pitches[2] as int, chroma_size(size))
}

/// The colour of pixel `(x, y)` of a 4:2:0 framebuffer: its own luma sample
/// and the chroma samples shared by its 2 x 2 block.
pub open spec fn yuv420_pixel_at(mappings: [&[u8]; 3], pitches: [u32; 3], x: u32, y: u32) -> (
    u8,
    u8,
    u8,
) {
    yuv_to_rgb(
        mappings[0]@[y * pitches[0] + x],
        mappings[1]@[(y / 2) * pitches[1] + x / 2],
        mappings[2]@[(y / 2) * pitches[2] + x / 2],
    )
}

/// The image `decode_image_multichannel` produces.
pub open spec fn yuv420_pixels(mappings: [&[u8]; 3], size: (u32, u32), pitches: [u32; 3]) -> Map<
    (u32, u32),
    (u8, u8, u8),
> {
    Map::new(
        |p: (u32, u32)| p.0 < size.0 && p.1 < size.1,
        |p: (u32, u32)| yuv420_pixel_at(mappings, pitches, p.0, p.1),
    )
}

/// Decodes a planar YUV 4:2:0 framebuffer: a full-size luma plane and two
/// half-size chroma planes, each with its own pitch in bytes.
pub fn decode_image_multichannel(mappings: [&[u8]; 3], size: (u32, u32), pitches: [u32; 3]) -> (img:
    Canvas)
    requires
        yuv420_layout_fits(mappings, size, pitches),
        rgb_buffer_fits(size.0, size.1),
    ensures
        canvas_dims(img) == size,
        canvas_pixels(img) == yuv420_pixels(mappings, size, pitches),
{
    let mut img = new_canvas(size.0, size.1);
    let ghost target = yuv420_pixels(mappings, size, pitches);
    proof {
        lemma_prefix_empty(target, size.0, size.1);
    }
    for y in 0..size.1
        invariant
            target == yuv420_pixels(mappings, size, pitches),
            yuv420_layout_fits(mappings, size, pitches),
            canvas_dims(img) == size,
            canvas_pixels(img) == row_major_prefix(target, size.0, size.1, 0, y as int),
    {
        for x in 0..size.0
            invariant
                y < size.1,
                target == yuv420_pixels(mappings, size, pitches),
                yuv420_layout_fits(mappings, size, pitches),
                canvas_dims(img) == size,
                canvas_pixels(img) == row_major_prefix(target, size.0, size.1, x as int, y as int),
        {
            proof {
                lemma_linear_index_bound(x, y, pitches[0] as int, size);
                lemma_linear_index_bound(x / 2, y / 2, pitches[1] as int, chroma_size(size));
                lemma_linear_index_bound(x / 2, y / 2, pitches[2] as int, chroma_size(size));
            }
            let offset = (y * pitches[0] + x) as usize;
            let offset1 = ((y / 2) * pitches[1] + x / 2) as usize;
            let offset2 = ((y / 2) * pitches[2] + x / 2) as usize;
            let yuv = YUV420Pixel::new(mappings[0][offset], mappings[1][offset1], mappings[2][offset2]);
            let px = yuv.rgb();
            proof {
                lemma_prefix_step(target, size.0, size.1, x, y);
            }
            put_canvas_pixel(&mut img, x, y, px);
        }
        proof {
            lemma_prefix_next_row(target, size.0, size.1, y);
        }
    }
    proof {
        lemma_prefix_full(target, size.0, size.1);
    }
    img
}

/// Every 2 x 2 luma block of the half-size image can be read and its first
/// byte indexed in `u32`, and the chroma planes can be read at every pixel
/// of the half-size image.
pub open spec fn small_yuv420_layout_fits(
    mappings: [&[u8]; 3],
    size: (u32, u32),
    pitches: [u32; 3],
) -> bool {
    let half = ((size.0 / 2) as u32, (size.1 / 2) as u32);
    &&& half.0 == 0 || half.1 == 0 || {
        let first = 2 * (half.1 - 1) * pitches[0] + 2 * (half.0 - 1);
        &&& first <= u32::MAX
        &&& first + pitches[0] + 1 < mappings[0]@.len()
    }
    &&& linear_layout_fits(mappings[1]@.len() as int, pitches[1] as int, half)
    &&& linear_layout_fits(mappings[2]@.len() as int, pitches[2] as int, half)
}

/// Pixel `(x, y)` of the half-size image: the mean (rounded down) of the
/// 2 x 2 luma block at `(2x, 2y)`, with the chroma samples at `(x, y)`.
pub open spec fn small_yuv420_pixel_at(mappings: [&[u8]; 3], pitches: [u32; 3], x: u32, y: u32) -> (
    u8,
    u8,
    u8,
) {
    let o = 2 * y * pitches[0] + 2 * x;
    let luma = mappings[0]@;
    yuv_to_rgb(
        ((luma[o] + luma[o + 1] + luma[o + pitches[0]] + luma[o + pitches[0] + 1]) / 4) as u8,
        mappings[1]@[y * pitches[1] + x],
        mappings[2]@[y * pitches[2] + x],
    )
}

/// The image `decode_small_image_multichannel` produces.
pub open spec fn small_yuv420_pixels(
    mappings: [&[u8]; 3],
    size: (u32, u32),
    pitches: [u32; 3],
) -> Map<(u32, u32), (u8, u8, u8)> {
    Map::new(
        |p: (u32, u32)| p.0 < size.0 / 2 && p.1 < size.1 / 2,
        |p: (u32, u32)| small_yuv420_pixel_at(mappings, pitches, p.0, p.1),
    )
}

/// Decodes a planar YUV 4:2:0 framebuffer at half its size in each
/// direction, averaging each 2 x 2 block of luma.
pub fn decode_small_image_multichannel(
    mappings: [&[u8]; 3],
    size: (u32, u32),
    pitches: [u32; 3],
) -> (img: Canvas)
    requires
        small_yuv420_layout_fits(mappings, size, pitches),
        rgb_buffer_fits(size.0 / 2, size.1 / 2),
    ensures
        canvas_dims(img) == ((size.0 / 2) as u32, (size.1 / 2) as u32),
        canvas_pixels(img) == small_yuv420_pixels(mappings, size, pitches),
{
    let halfsize = (size.0 / 2, size.1 / 2);
    let mut img = new_canvas(halfsize.0, halfsize.1);
    let ghost target = small_yuv420_pixels(mappings, size, pitches);
    proof {
        lemma_prefix_empty(target, halfsize.0, halfsize.1);
    }
    for y in 0..halfsize.1
        invariant
            halfsize == ((size.0 / 2) as u32, (size.1 / 2) as u32),
            target == small_yuv420_pixels(mappings, size, pitches),
            small_yuv420_layout_fits(mappings, size, pitches),
            canvas_dims(img) == halfsize,
            canvas_pixels(img) == row_major_prefix(target, halfsize.0, halfsize.1, 0, y as int),
    {
        for x in 0..halfsize.0
            invariant
                y < halfsize.1,
                halfsize == ((size.0 / 2) as u32, (size.1 / 2) as u32),
                target == small_yuv420_pixels(mappings, size, pitches),
                small_yuv420_layout_fits(mappings, size, pitches),
                canvas_dims(img) == halfsize,
                canvas_pixels(img) == row_major_prefix(
                    target,
                    halfsize.0,
                    halfsize.1,
                    x as int,
                    y as int,
                ),
        {
            proof {
                lemma_linear_index_bound(x, y, 2 * pitches[0], halfsize);
                assert(2 * y * pitches[0] == y * (2 * pitches[0])) by (nonlinear_arith);
                assert(2 * (halfsize.1 - 1) * pitches[0] == (halfsize.1 - 1) * (2 * pitches[0]))
                    by (nonlinear_arith);
                lemma_linear_index_bound(x, y, pitches[1] as int, halfsize);
                lemma_linear_index_bound(x, y, pitches[2] as int, halfsize);
            }
            let offset = (2 * y * pitches[0] + 2 * x) as usize;
            let offset1 = (y * pitches[1] + x) as usize;
            let offset2 = (y * pitches[2] + x) as usize;
            let yval = (mappings[0][offset] as u32 + mappings[0][offset + 1] as u32
                + mappings[0][offset + pitches[0] as usize] as u32
                + mappings[0][offset + pitches[0] as usize + 1] as u32) / 4;
            let yuv = YUV420Pixel::new(yval as u8, mappings[1][offset1], mappings[2][offset2]);
            let px = yuv.rgb();
            proof {
                lemma_prefix_step(target, halfsize.0, halfsize.1, x, y);
            }
            put_canvas_pixel(&mut img, x, y, px);
        }
        proof {
            lemma_prefix_next_row(target, halfsize.0, halfsize.1, y);
        }
    }
    proof {
        lemma_prefix_full(target, halfsize.0, halfsize.1);
    }
    img
}

// ---------------------------------------------------------------------------
// Tiled framebuffers
// ---------------------------------------------------------------------------

/// Averages the 16 words of `mapping` that start at `i`.
pub fn average_16(mapping: &[u32], i: usize) -> (px: (u8, u8, u8))
    requires
        i + 16 <= mapping@.len(),
    ensures
        px == average_color(mapping@.subrange(i as int, i + 16)),
{
    let len = mapping.len();
    let mut avg = PixelAverage::new();
    for n in 0..16usize
        invariant
            len == mapping@.len(),
            i + 16 <= len,
            avg@ == mapping@.subrange(i as int, i + n),
    {
        proof {
            assert(avg@.push(mapping@[i + n]) =~= mapping@.subrange(i as int, i + n + 1));
            lemma_totals_fit(mapping@.subrange(i as int, i + n + 1));
        }
        avg.add(mapping[i + n]);
    }
    avg.rgb()
}

/// Offset, in block units, of the `q`-th block visited in a tile.
fn block_start(odd_row: bool, q: u32) -> (d: (u32, u32))
    requires
        q < 4,
    ensures
        d.0 == block_offset(odd_row, q as int).0,
        d.1 == block_offset(odd_row, q as int).1,
{
    if !odd_row {
        if q == 0 {
            (0, 0)
        } else if q == 1 {
            (0, 1)
        } else if q == 2 {
            (1, 1)
        } else {
            (1, 0)
        }
    } else {
        if q == 0 {
            (1, 1)
        } else if q == 1 {
            (1, 0)
        } else if q == 2 {
            (0, 0)
        } else {
            (0, 1)
        }
    }
}

/// Writes, from the 256 words at `i`, the 16 pixels `k0 .. k0 + 16` of the
/// reduced tiled format, which fill the 4 x 4 square at `(x, y)`.
fn copy_small_block(
    img: &mut Canvas,
    mapping: &[u32],
    i: usize,
    x: u32,
    y: u32,
    tilesize: u32,
    tiles: (u32, u32),
    Ghost(k0): Ghost<int>,
)
    requires
        i == 16 * k0,
        i + 256 <= mapping@.len(),
        x + 4 <= canvas_dims(*old(img)).0,
        y + 4 <= canvas_dims(*old(img)).1,
        forall|k: int|
            k0 <= k < k0 + 16 ==> #[trigger] small_tile_position(k, tilesize, tiles) == ((x + (k
                - k0) % 4) as u32, (y + (k - k0) / 4) as u32),
        canvas_pixels(*old(img)) == small_tiled_canvas(mapping@, tilesize, tiles, k0),
    ensures
        canvas_dims(*final(img)) == canvas_dims(*old(img)),
        canvas_pixels(*final(img)) == small_tiled_canvas(mapping@, tilesize, tiles, k0 + 16),
{
    let len = mapping.len();
    let mut j: usize = i;
    for r in 0..4u32
        invariant
            len == mapping@.len(),
            i == 16 * k0,
            i + 256 <= mapping@.len(),
            j == i + 64 * r,
            x + 4 <= canvas_dims(*old(img)).0,
            y + 4 <= canvas_dims(*old(img)).1,
            forall|k: int|
                k0 <= k < k0 + 16 ==> #[trigger] small_tile_position(k, tilesize, tiles) == ((x + (k
                    - k0) % 4) as u32, (y + (k - k0) / 4) as u32),
            canvas_dims(*img) == canvas_dims(*old(img)),
            canvas_pixels(*img) == small_tiled_canvas(mapping@, tilesize, tiles, k0 + r * 4),
    {
        for c in 0..4u32
            invariant
                r < 4,
                len == mapping@.len(),
                i == 16 * k0,
                i + 256 <= mapping@.len(),
                j == i + 64 * r + 16 * c,
                x + 4 <= canvas_dims(*old(img)).0,
                y + 4 <= canvas_dims(*old(img)).1,
                forall|k: int|
                    k0 <= k < k0 + 16 ==> #[trigger] small_tile_position(k, tilesize, tiles) == ((x
                        + (k - k0) % 4) as u32, (y + (k - k0) / 4) as u32),
                canvas_dims(*img) == canvas_dims(*old(img)),
                canvas_pixels(*img) == small_tiled_canvas(mapping@, tilesize, tiles, k0 + r * 4 + c),
        {
            let ghost k = k0 + r * 4 + c;
            assert(small_tile_position(k, tilesize, tiles) == ((x + c) as u32, (y + r) as u32));
            assert(mapping@.subrange(j as int, j + 16) == mapping@.subrange(16 * k, 16 * (k + 1)));
            let px = average_16(mapping, j);
            put_canvas_pixel(img, x + c, y + r, px);
            j = j + 16;
        }
    }
}

/// The reduced tiled image after its first `n` pixels have been written;
/// pixel `k` is the average of words `16k .. 16k + 16` and goes to
/// `small_tile_position(k)`.
pub open spec fn small_tiled_canvas(
    mapping: Seq<u32>,
    tilesize: u32,
    tiles: (u32, u32),
    n: int,
) -> Map<(u32, u32), (u8, u8, u8)>
    decreases n,
{
    if n <= 0 {
        blank_pixels((tiles.0 * tilesize / 4) as u32, (tiles.1 * tilesize / 4) as u32)
    } else {
        small_tiled_canvas(mapping, tilesize, tiles, n - 1).insert(
            small_tile_position(n - 1, tilesize, tiles),
            average_color(mapping.subrange(16 * (n - 1), 16 * n)),
        )
    }
}

/// What `decode_tiled_small_image` needs of its arguments.
pub open spec fn small_tiled_fits(
    len: int,
    tilesize: u32,
    tiles: (u32, u32),
    size: (u32, u32),
) -> bool {
    let width = tiles.0 * tilesize / 4;
    let height = tiles.1 * tilesize / 4;
    &&& tiles.0 * tilesize <= u32::MAX
    &&& tiles.1 * tilesize <= u32::MAX
    &&& tiles.0 == 0 || tiles.1 == 0 || (tiles_fit(tiles.0, tilesize, 4, 8) && tiles_fit(
        tiles.1,
        tilesize,
        4,
        8,
    ))
    &&& 1024 * tiles.0 * tiles.1 <= len
    &&& rgb_buffer_fits(width as u32, height as u32)
    &&& size.0 / 4 <= width
    &&& size.1 / 4 <= height
}

/// Decodes a tiled framebuffer of `0x00RRGGBB` words at a quarter of its
/// size: each output pixel averages 16 consecutive words, tiles of 8 x 8
/// output pixels follow the serpentine order of `tiled_layout`, and the
/// result is cut to `size / 4`.
#[verifier::loop_isolation(false)]
pub fn decode_tiled_small_image(
    mapping: &[u32],
    tilesize: u32,
    tiles: (u32, u32),
    size: (u32, u32),
) -> (img: Canvas)
    requires
        small_tiled_fits(mapping@.len() as int, tilesize, tiles, size),
    ensures
        canvas_dims(img) == ((size.0 / 4) as u32, (size.1 / 4) as u32),
        canvas_pixels(img) == crop_pixels(
            small_tiled_canvas(mapping@, tilesize, tiles, 64 * tiles.0 * tiles.1),
            (size.0 / 4) as u32,
            (size.1 / 4) as u32,
        ),
{
    let width = tiles.0 * tilesize / 4;
    let height = tiles.1 * tilesize / 4;
    let mut img = new_canvas(width, height);
    let len = mapping.len();
    let mut i: usize = 0;
    let ghost mut t: int = 0;
    assert(tiles.1 * tiles.0 >= 0 && 0 * tiles.0 == 0) by (nonlinear_arith);
    for ytile in 0..tiles.1
        invariant
            t == ytile * tiles.0,
            i == 1024 * t,
            canvas_dims(img) == (width, height),
            canvas_pixels(img) == small_tiled_canvas(mapping@, tilesize, tiles, 64 * t),
    {
        let odd = ytile % 2 != 0;
        for xi in 0..tiles.0
            invariant
                t == ytile * tiles.0 + xi,
                i == 1024 * t,
                canvas_dims(img) == (width, height),
                canvas_pixels(img) == small_tiled_canvas(mapping@, tilesize, tiles, 64 * t),
        {
            let xtile = if !odd {
                xi
            } else {
                tiles.0 - 1 - xi
            };
            proof {
                lemma_tile_start_bound(xtile as int, tiles.0, tilesize, 4);
                lemma_tile_start_bound(ytile as int, tiles.1, tilesize, 4);
                assert((ytile * tiles.0 + xi) + 1 <= tiles.0 * tiles.1) by (nonlinear_arith)
                    requires
                        ytile < tiles.1,
                        xi < tiles.0,
                ;
                assert(1024 * (t + 1) <= 1024 * tiles.0 * tiles.1) by (nonlinear_arith)
                    requires
                        t + 1 <= tiles.0 * tiles.1,
                ;
            }
            let x0 = xtile * tilesize / 4;
            let y0 = ytile * tilesize / 4;
            for q in 0..4u32
                invariant
                    t == ytile * tiles.0 + xi,
                    t + 1 <= tiles.0 * tiles.1,
                    len == mapping@.len(),
                    1024 * (t + 1) <= mapping@.len(),
                    i == 1024 * t + 256 * q,
                    x0 == tile_column(ytile as int, xi as int, tiles.0 as int) * tilesize / 4,
                    x0 + 8 <= width,
                    y0 == ytile * tilesize / 4,
                    y0 + 8 <= height,
                    canvas_dims(img) == (width, height),
                    canvas_pixels(img) == small_tiled_canvas(mapping@, tilesize, tiles, 64 * t + 16 * q),
            {
                let (bx, by) = block_start(odd, q);
                proof {
                    lemma_small_block_positions(
                        ytile as int,
                        xi as int,
                        q as int,
                        tilesize,
                        tiles,
                        x0 + 4 * bx,
                        y0 + 4 * by,
                    );
                }
                copy_small_block(
                    &mut img,
                    mapping,
                    i,
                    x0 + 4 * bx,
                    y0 + 4 * by,
                    tilesize,
                    tiles,
                    Ghost(64 * t + 16 * q),
                );
                i = i + 256;
            }
            proof {
                t = t + 1;
            }
        }
        proof {
            assert((ytile + 1) * tiles.0 == ytile * tiles.0 + tiles.0) by (nonlinear_arith);
        }
    }
    assert(64 * t == 64 * tiles.0 * tiles.1) by (nonlinear_arith)
        requires
            t == tiles.1 * tiles.0,
    ;
    crop_canvas(&img, size.0 / 4, size.1 / 4)
}

/// The colour of the `k`-th 4-byte `B, G, R, X` pixel.
pub open spec fn bgrx_color(mapping: Seq<u8>, k: int) -> (u8, u8, u8) {
    (mapping[4 * k + 2], mapping[4 * k + 1], mapping[4 * k])
}

/// The full tiled image after its first `n` pixels have been written; pixel
/// `k` is `bgrx_color(mapping, k)` and goes to `tile_position(k)`.
pub open spec fn tiled_canvas(mapping: Seq<u8>, tilesize: u32, tiles: (u32, u32), n: int) -> Map<
    (u32, u32),
    (u8, u8, u8),
>
    decreases n,
{
    if n <= 0 {
        blank_pixels((tiles.0 * tilesize) as u32, (tiles.1 * tilesize) as u32)
    } else {
        tiled_canvas(mapping, tilesize, tiles, n - 1).insert(
            tile_position(n - 1, tilesize, tiles),
            bgrx_color(mapping, n - 1),
        )
    }
}

/// What `to_image` needs of its arguments: among them, that its `i32` byte
/// counter does not overflow.
pub open spec fn tiled_fits(len: int, tilesize: u32, tiles: (u32, u32), size: (u32, u32)) -> bool {
    let width = tiles.0 * tilesize;
    let height = tiles.1 * tilesize;
    &&& width <= u32::MAX
    &&& height <= u32::MAX
    &&& tiles.0 == 0 || tiles.1 == 0 || (tiles_fit(tiles.0, tilesize, 1, 32) && tiles_fit(
        tiles.1,
        tilesize,
        1,
        32,
    ))
    &&& 4096 * tiles.0 * tiles.1 <= len + 1
    &&& 4096 * tiles.0 * tiles.1 <= i32::MAX
    &&& rgb_buffer_fits(width as u32, height as u32)
    &&& size.0 <= width
    &&& size.1 <= height
}

/// Writes, from the 1024 bytes at `i`, the 256 pixels `k0 .. k0 + 256` of
/// the full tiled format, which fill the 16 x 16 square at `(x, y)`.
fn copy_block_16x16(
    img: &mut Canvas,
    mapping: &[u8],
    i: i32,
    x: u32,
    y: u32,
    tilesize: u32,
    tiles: (u32, u32),
    Ghost(k0): Ghost<int>,
)
    requires
        0 <= k0,
        i == 4 * k0,
        i + 1023 <= mapping@.len(),
        i + 1024 <= i32::MAX,
        x + 16 <= canvas_dims(*old(img)).0,
        y + 16 <= canvas_dims(*old(img)).1,
        forall|k: int|
            k0 <= k < k0 + 256 ==> #[trigger] tile_position(k, tilesize, tiles) == ((x
                + block16_offset(k - k0).0) as u32, (y + block16_offset(k - k0).1) as u32),
        canvas_pixels(*old(img)) == tiled_canvas(mapping@, tilesize, tiles, k0),
    ensures
        canvas_dims(*final(img)) == canvas_dims(*old(img)),
        canvas_pixels(*final(img)) == tiled_canvas(mapping@, tilesize, tiles, k0 + 256),
{
    let mut j: i32 = i;
    for band in 0..4u32
        invariant
            0 <= k0,
            i == 4 * k0,
            i + 1023 <= mapping@.len(),
            i + 1024 <= i32::MAX,
            j == i + 256 * band,
            x + 16 <= canvas_dims(*old(img)).0,
            y + 16 <= canvas_dims(*old(img)).1,
            forall|k: int|
                k0 <= k < k0 + 256 ==> #[trigger] tile_position(k, tilesize, tiles) == ((x
                    + block16_offset(k - k0).0) as u32, (y + block16_offset(k - k0).1) as u32),
            canvas_dims(*img) == canvas_dims(*old(img)),
            canvas_pixels(*img) == tiled_canvas(mapping@, tilesize, tiles, k0 + band * 64),
    {
        for square in 0..4u32
            invariant
                band < 4,
                0 <= k0,
            i == 4 * k0,
                i + 1023 <= mapping@.len(),
                i + 1024 <= i32::MAX,
                j == i + 256 * band + 64 * square,
                x + 16 <= canvas_dims(*old(img)).0,
                y + 16 <= canvas_dims(*old(img)).1,
                forall|k: int|
                    k0 <= k < k0 + 256 ==> #[trigger] tile_position(k, tilesize, tiles) == ((x
                        + block16_offset(k - k0).0) as u32, (y + block16_offset(k - k0).1) as u32),
                canvas_dims(*img) == canvas_dims(*old(img)),
                canvas_pixels(*img) == tiled_canvas(
                    mapping@,
                    tilesize,
                    tiles,
                    k0 + band * 64 + square * 16,
                ),
        {
            for r in 0..4u32
                invariant
                    band < 4,
                    square < 4,
                    0 <= k0,
            i == 4 * k0,
                    i + 1023 <= mapping@.len(),
                    i + 1024 <= i32::MAX,
                    j == i + 256 * band + 64 * square + 16 * r,
                    x + 16 <= canvas_dims(*old(img)).0,
                    y + 16 <= canvas_dims(*old(img)).1,
                    forall|k: int|
                        k0 <= k < k0 + 256 ==> #[trigger] tile_position(k, tilesize, tiles) == ((x
                            + block16_offset(k - k0).0) as u32, (y + block16_offset(k - k0).1)
                            as u32),
                    canvas_dims(*img) == canvas_dims(*old(img)),
                    canvas_pixels(*img) == tiled_canvas(
                        mapping@,
                        tilesize,
                        tiles,
                        k0 + band * 64 + square * 16 + r * 4,
                    ),
            {
                for c in 0..4u32
                    invariant
                        band < 4,
                        square < 4,
                        r < 4,
                        0 <= k0,
            i == 4 * k0,
                        i + 1023 <= mapping@.len(),
                        i + 1024 <= i32::MAX,
                        j == i + 256 * band + 64 * square + 16 * r + 4 * c,
                        x + 16 <= canvas_dims(*old(img)).0,
                        y + 16 <= canvas_dims(*old(img)).1,
                        forall|k: int|
                            k0 <= k < k0 + 256 ==> #[trigger] tile_position(k, tilesize, tiles)
                                == ((x + block16_offset(k - k0).0) as u32, (y + block16_offset(
                                k - k0,
                            ).1) as u32),
                        canvas_dims(*img) == canvas_dims(*old(img)),
                        canvas_pixels(*img) == tiled_canvas(
                            mapping@,
                            tilesize,
                            tiles,
                            k0 + band * 64 + square * 16 + r * 4 + c,
                        ),
                {
                    let ghost k = k0 + band * 64 + square * 16 + r * 4 + c;
                    proof {
                        lemma_block16_offset(band as int, square as int, r as int, c as int);
                    }
                    assert(tile_position(k, tilesize, tiles) == ((x + 4 * square + c) as u32, (y + 4
                        * band + r) as u32));
                    let color = (
                        mapping[(j + 2) as usize],
                        mapping[(j + 1) as usize],
                        mapping[(j + 0) as usize],
                    );
                    put_canvas_pixel(img, x + 4 * square + c, y + 4 * band + r, color);
                    j = j + 4;
                }
            }
        }
    }
}

/// Decodes a tiled framebuffer of 4-byte `B, G, R, X` pixels: tiles of
/// 32 x 32 pixels follow the serpentine order of `tiled_layout`, and the
/// result is cut to `size`.
pub fn to_image(mapping: &[u8], tilesize: u32, tiles: (u32, u32), size: (u32, u32)) -> (img: Canvas)
    requires
        tiled_fits(mapping@.len() as int, tilesize, tiles, size),
    ensures
        canvas_dims(img) == size,
        canvas_pixels(img) == crop_pixels(
            tiled_canvas(mapping@, tilesize, tiles, 1024 * tiles.0 * tiles.1),
            size.0,
            size.1,
        ),
{
    let width = tiles.0 * tilesize;
    let height = tiles.1 * tilesize;
    let mut img = new_canvas(width, height);
    let mut i: i32 = 0;
    let ghost mut t: int = 0;
    assert(tiles.1 * tiles.0 >= 0 && 0 * tiles.0 == 0) by (nonlinear_arith);
    for ytile in 0..tiles.1
        invariant
            tiled_fits(mapping@.len() as int, tilesize, tiles, size),
            width == tiles.0 * tilesize,
            height == tiles.1 * tilesize,
            t == ytile * tiles.0,
            i == 4096 * t,
            canvas_dims(img) == (width, height),
            canvas_pixels(img) == tiled_canvas(mapping@, tilesize, tiles, 1024 * t),
    {
        let odd = ytile % 2 != 0;
        for xi in 0..tiles.0
            invariant
                ytile < tiles.1,
                tiled_fits(mapping@.len() as int, tilesize, tiles, size),
                width == tiles.0 * tilesize,
                height == tiles.1 * tilesize,
                odd == (ytile % 2 != 0),
                t == ytile * tiles.0 + xi,
                i == 4096 * t,
                canvas_dims(img) == (width, height),
                canvas_pixels(img) == tiled_canvas(mapping@, tilesize, tiles, 1024 * t),
        {
            let xtile = if !odd {
                xi
            } else {
                tiles.0 - 1 - xi
            };
            proof {
                lemma_tile_start_bound(xtile as int, tiles.0, tilesize, 1);
                lemma_tile_start_bound(ytile as int, tiles.1, tilesize, 1);
                assert((ytile * tiles.0 + xi) + 1 <= tiles.0 * tiles.1) by (nonlinear_arith)
                    requires
                        ytile < tiles.1,
                        xi < tiles.0,
                ;
                assert(4096 * (t + 1) <= 4096 * tiles.0 * tiles.1) by (nonlinear_arith)
                    requires
                        t + 1 <= tiles.0 * tiles.1,
                ;
            }
            let x0 = xtile * tilesize;
            let y0 = ytile * tilesize;
            for q in 0..4u32
                invariant
                    ytile < tiles.1,
                    xi < tiles.0,
                    odd == (ytile % 2 != 0),
                    t == ytile * tiles.0 + xi,
                    4096 * (t + 1) <= mapping@.len() + 1,
                    4096 * (t + 1) <= i32::MAX,
                    i == 4096 * t + 1024 * q,
                    x0 == tile_column(ytile as int, xi as int, tiles.0 as int) * tilesize,
                    x0 + 32 <= width,
                    y0 == ytile * tilesize,
                    y0 + 32 <= height,
                    canvas_dims(img) == (width, height),
                    canvas_pixels(img) == tiled_canvas(mapping@, tilesize, tiles, 1024 * t + 256 * q),
            {
                let (bx, by) = block_start(odd, q);
                proof {
                    lemma_block_positions(
                        ytile as int,
                        xi as int,
                        q as int,
                        tilesize,
                        tiles,
                        x0 + 16 * bx,
                        y0 + 16 * by,
                    );
                }
                copy_block_16x16(
                    &mut img,
                    mapping,
                    i,
                    x0 + 16 * bx,
                    y0 + 16 * by,
                    tilesize,
                    tiles,
                    Ghost(1024 * t + 256 * q),
                );
                i = i + 1024;
            }
            proof {
                t = t + 1;
            }
        }
        proof {
            assert((ytile + 1) * tiles.0 == ytile * tiles.0 + tiles.0) by (nonlinear_arith);
        }
    }
    assert(1024 * t == 1024 * tiles.0 * tiles.1) by (nonlinear_arith)
        requires
            t == tiles.1 * tiles.0,
    ;
    crop_canvas(&img, size.0, size.1)
}

proof fn lemma_tiled_canvas_values(mapping: Seq<u8>, tiles: (u32, u32), n: int)
    requires
        tiles.0 * 32 <= u32::MAX,
        tiles.1 * 32 <= u32::MAX,
        0 <= n <= 1024 * tiles.0 * tiles.1,
    ensures
        tiled_canvas(mapping, 32, tiles, n).dom() == blank_pixels(
            (tiles.0 * 32) as u32,
            (tiles.1 * 32) as u32,
        ).dom(),
        forall|k: int|
            0 <= k < n ==> tiled_canvas(mapping, 32, tiles, n)[#[trigger] tile_position(
                k,
                32,
                tiles,
            )] == bgrx_color(mapping, k),
    decreases n,
{
    lemma_tiles_cover_image_once(tiles);
    if n > 0 {
        lemma_tiled_canvas_values(mapping, tiles, n - 1);
        let p = tile_position(n - 1, 32, tiles);
        assert(tiled_canvas(mapping, 32, tiles, n).dom() =~= blank_pixels(
            (tiles.0 * 32) as u32,
            (tiles.1 * 32) as u32,
        ).dom());
        assert forall|k: int| 0 <= k < n implies tiled_canvas(mapping, 32, tiles, n)[
            #[trigger] tile_position(k, 32, tiles)] == bgrx_color(mapping, k) by {
            if k < n - 1 {
                let pk = tile_position(k, 32, tiles);
                assert(tile_index(pk.0 as int, pk.1 as int, tiles.0 as int) == k);
                assert(tile_index(p.0 as int, p.1 as int, tiles.0 as int) == n - 1);
            }
        }
    }
}

/// With 32-pixel tiles, the image `to_image` fills before cutting holds
/// every pixel of the framebuffer exactly where `tile_position` puts it and
/// nowhere else: its places are exactly those of the image, and pixel `k`
/// is found at `tile_position(k)`.
pub proof fn lemma_to_image_keeps_every_pixel(mapping: Seq<u8>, tiles: (u32, u32))
    requires
        tiles.0 * 32 <= u32::MAX,
        tiles.1 * 32 <= u32::MAX,
    ensures
        tiled_canvas(mapping, 32, tiles, 1024 * tiles.0 * tiles.1).dom() == blank_pixels(
            (tiles.0 * 32) as u32,
            (tiles.1 * 32) as u32,
        ).dom(),
        forall|k: int|
            0 <= k < 1024 * tiles.0 * tiles.1 ==> tiled_canvas(
                mapping,
                32,
                tiles,
                1024 * tiles.0 * tiles.1,
            )[#[trigger] tile_position(k, 32, tiles)] == bgrx_color(mapping, k),
        forall|x: int, y: int|
            0 <= x < tiles.0 * 32 && 0 <= y < tiles.1 * 32 ==> {
                let k = #[trigger] tile_index(x, y, tiles.0 as int);
                &&& 0 <= k < 1024 * tiles.0 * tiles.1
                &&& tiled_canvas(mapping, 32, tiles, 1024 * tiles.0 * tiles.1)[(x as u32, y as u32)]
                    == bgrx_color(mapping, k)
            },
{
    assert(1024 * tiles.0 * tiles.1 >= 0) by (nonlinear_arith);
    lemma_tiled_canvas_values(mapping, tiles, 1024 * tiles.0 * tiles.1);
    lemma_tiles_cover_image_once(tiles);
}

proof fn lemma_small_tiled_canvas_values(mapping: Seq<u32>, tiles: (u32, u32), n: int)
    requires
        tiles.0 * 32 <= u32::MAX,
        tiles.1 * 32 <= u32::MAX,
        0 <= n <= 64 * tiles.0 * tiles.1,
    ensures
        small_tiled_canvas(mapping, 32, tiles, n).dom() == blank_pixels(
            (tiles.0 * 32 / 4) as u32,
            (tiles.1 * 32 / 4) as u32,
        ).dom(),
        forall|k: int|
            0 <= k < n ==> small_tiled_canvas(mapping, 32, tiles, n)[#[trigger] small_tile_position(
                k,
                32,
                tiles,
            )] == average_color(mapping.subrange(16 * k, 16 * k + 16)),
    decreases n,
{
    lemma_small_tiles_cover_image_once(tiles);
    if n > 0 {
        lemma_small_tiled_canvas_values(mapping, tiles, n - 1);
        let p = small_tile_position(n - 1, 32, tiles);
        assert(small_tiled_canvas(mapping, 32, tiles, n).dom() =~= blank_pixels(
            (tiles.0 * 32 / 4) as u32,
            (tiles.1 * 32 / 4) as u32,
        ).dom());
        assert forall|k: int| 0 <= k < n implies small_tiled_canvas(mapping, 32, tiles, n)[
            #[trigger] small_tile_position(k, 32, tiles)] == average_color(
            mapping.subrange(16 * k, 16 * k + 16),
        ) by {
            if k < n - 1 {
                let pk = small_tile_position(k, 32, tiles);
                assert(small_tile_index(pk.0 as int, pk.1 as int, tiles.0 as int) == k);
                assert(small_tile_index(p.0 as int, p.1 as int, tiles.0 as int) == n - 1);
            }
        }
    }
}

/// With 32-word tiles, the image `decode_tiled_small_image` fills before
/// cutting holds the average of every group of 16 words exactly where
/// `small_tile_position` puts it and nowhere else.
pub proof fn lemma_small_image_keeps_every_group(mapping: Seq<u32>, tiles: (u32, u32))
    requires
        tiles.0 * 32 <= u32::MAX,
        tiles.1 * 32 <= u32::MAX,
    ensures
        small_tiled_canvas(mapping, 32, tiles, 64 * tiles.0 * tiles.1).dom() == blank_pixels(
            (tiles.0 * 32 / 4) as u32,
            (tiles.1 * 32 / 4) as u32,
        ).dom(),
        forall|k: int|
            0 <= k < 64 * tiles.0 * tiles.1 ==> small_tiled_canvas(
                mapping,
                32,
                tiles,
                64 * tiles.0 * tiles.1,
            )[#[trigger] small_tile_position(k, 32, tiles)] == average_color(
                mapping.subrange(16 * k, 16 * k + 16),
            ),
        forall|x: int, y: int|
            0 <= x < tiles.0 * 32 / 4 && 0 <= y < tiles.1 * 32 / 4 ==> {
                let k = #[trigger] small_tile_index(x, y, tiles.0 as int);
                &&& 0 <= k < 64 * tiles.0 * tiles.1
                &&& small_tiled_canvas(mapping, 32, tiles, 64 * tiles.0 * tiles.1)[(
                    x as u32,
                    y as u32,
                )] == average_color(mapping.subrange(16 * k, 16 * k + 16))
            },
{
    assert(64 * tiles.0 * tiles.1 >= 0) by (nonlinear_arith);
    lemma_small_tiled_canvas_values(mapping, tiles, 64 * tiles.0 * tiles.1);
    lemma_small_tiles_cover_image_once(tiles);
}

/// `bytes` are the words of `words` in little-endian order.
pub open spec fn le_bytes_of(bytes: Seq<u8>, words: Seq<u32>) -> bool {
    &&& bytes.len() == 4 * words.len()
    &&& forall|k: int|
        0 <= k < words.len() ==> {
            &&& bytes[4 * k] == (#[trigger] words[k] % 256) as u8
            &&& bytes[4 * k + 1] == ((words[k] / 0x100) % 256) as u8
            &&& bytes[4 * k + 2] == ((words[k] / 0x10000) % 256) as u8
            &&& bytes[4 * k + 3] == (words[k] / 0x1000000) as u8
        }
}

/// Sum of one channel (1: green, 2: blue) over the first `n` pixels, row by
/// row, of the 4 x 4 square of `img` at `(4 * x, 4 * y)`.
pub open spec fn square_total(
    img: Map<(u32, u32), (u8, u8, u8)>,
    x: int,
    y: int,
    channel: int,
    n: int,
) -> int
    decreases n,
{
    if n <= 0 {
        0
    } else {
        let p = img[((4 * x + (n - 1) % 4) as u32, (4 * y + (n - 1) / 4) as u32)];
        square_total(img, x, y, channel, n - 1) + if channel == 1 {
            p.1 as int
        } else {
            p.2 as int
        }
    }
}

proof fn lemma_square_totals(
    mapping: Seq<u32>,
    bytes: Seq<u8>,
    tiles: (u32, u32),
    k: int,
    x: int,
    y: int,
    n: int,
)
    requires
        tiles.0 * 32 <= u32::MAX,
        tiles.1 * 32 <= u32::MAX,
        1024 * tiles.0 * tiles.1 <= mapping.len(),
        le_bytes_of(bytes, mapping),
        0 <= k < 64 * tiles.0 * tiles.1,
        small_tile_position(k, 32, tiles) == (x as u32, y as u32),
        0 <= x < tiles.0 * 8,
        0 <= y < tiles.1 * 8,
        0 <= n <= 16,
    ensures
        channel_total(mapping.subrange(16 * k, 16 * k + n), 0) == square_total(
            tiled_canvas(bytes, 32, tiles, 1024 * tiles.0 * tiles.1),
            x,
            y,
            2,
            n,
        ),
        channel_total(mapping.subrange(16 * k, 16 * k + n), 8) == square_total(
            tiled_canvas(bytes, 32, tiles, 1024 * tiles.0 * tiles.1),
            x,
            y,
            1,
            n,
        ),
    decreases n,
{
    assert(16 * k + 16 <= mapping.len()) by (nonlinear_arith)
        requires
            k < 64 * tiles.0 * tiles.1,
            1024 * tiles.0 * tiles.1 <= mapping.len(),
    ;
    if n > 0 {
        lemma_square_totals(mapping, bytes, tiles, k, x, y, n - 1);
        let s = mapping.subrange(16 * k, 16 * k + n);
        assert(s.drop_last() =~= mapping.subrange(16 * k, 16 * k + n - 1));
        let big = 16 * k + n - 1;
        assert(big < 1024 * tiles.0 * tiles.1) by (nonlinear_arith)
            requires
                big == 16 * k + n - 1,
                k < 64 * tiles.0 * tiles.1,
                n <= 16,
        ;
        lemma_full_square_of_small_pixel(k, n - 1, tiles);
        lemma_to_image_keeps_every_pixel(bytes, tiles);
        let w = mapping[big];
        assert(s.last() == w);
        assert((w >> 0u32) & 0xFFu32 == w % 256 && (w >> 8u32) & 0xFFu32 == (w / 0x100) % 256)
            by (bit_vector);
        let img = tiled_canvas(bytes, 32, tiles, 1024 * tiles.0 * tiles.1);
        let pos = ((4 * x + (n - 1) % 4) as u32, (4 * y + (n - 1) / 4) as u32);
        assert(tile_position(big, 32, tiles) == pos);
        assert(img[pos] == bgrx_color(bytes, big));
        assert(bytes[4 * big] == (w % 256) as u8);
        assert(bytes[4 * big + 1] == ((w / 0x100) % 256) as u8);
        assert(img[pos].2 as int == w % 256);
        assert(img[pos].1 as int == (w / 0x100) % 256);
        assert(channel_total(s, 0) == channel_total(s.drop_last(), 0) + w % 256);
        assert(channel_total(s, 8) == channel_total(s.drop_last(), 8) + (w / 0x100) % 256);
    } else {
        assert(mapping.subrange(16 * k, 16 * k + n) =~= Seq::<u32>::empty());
    }
}

/// With 32-word tiles, pixel `(x, y)` of the reduced tiled image is the mean,
/// rounded down, of the 4 x 4 square at `(4 * x, 4 * y)` of the full tiled
/// image of the same words read as little-endian bytes: the blue mean in red's
/// and blue's place, the green mean in green's.
pub proof fn lemma_small_image_is_square_mean(mapping: Seq<u32>, bytes: Seq<u8>, tiles: (u32, u32))
    requires
        tiles.0 * 32 <= u32::MAX,
        tiles.1 * 32 <= u32::MAX,
        1024 * tiles.0 * tiles.1 <= mapping.len(),
        le_bytes_of(bytes, mapping),
    ensures
        forall|x: int, y: int|
            0 <= x < tiles.0 * 8 && 0 <= y < tiles.1 * 8 ==> #[trigger] small_tiled_canvas(
                mapping,
                32,
                tiles,
                64 * tiles.0 * tiles.1,
            )[(x as u32, y as u32)] == {
                let big = tiled_canvas(bytes, 32, tiles, 1024 * tiles.0 * tiles.1);
                let b = (square_total(big, x, y, 2, 16) / 16) as u8;
                (b, (square_total(big, x, y, 1, 16) / 16) as u8, b)
            },
{
    lemma_small_image_keeps_every_group(mapping, tiles);
    lemma_small_tiles_cover_image_once(tiles);
    lemma_tile_start_8_for(tiles);
    assert forall|x: int, y: int| 0 <= x < tiles.0 * 8 && 0 <= y < tiles.1 * 8 implies #[trigger]
        small_tiled_canvas(mapping, 32, tiles, 64 * tiles.0 * tiles.1)[(x as u32, y as u32)] == {
            let big = tiled_canvas(bytes, 32, tiles, 1024 * tiles.0 * tiles.1);
            let b = (square_total(big, x, y, 2, 16) / 16) as u8;
            (b, (square_total(big, x, y, 1, 16) / 16) as u8, b)
        } by {
        let k = small_tile_index(x, y, tiles.0 as int);
        assert(0 <= k < 64 * tiles.0 * tiles.1);
        assert(small_tile_position(k, 32, tiles) == (x as u32, y as u32));
        let sub = mapping.subrange(16 * k, 16 * k + 16);
        assert(16 * k + 16 <= mapping.len()) by (nonlinear_arith)
            requires
                k < 64 * tiles.0 * tiles.1,
                1024 * tiles.0 * tiles.1 <= mapping.len(),
        ;
        lemma_average_of_sixteen(sub);
        lemma_square_totals(mapping, bytes, tiles, k, x, y, 16);
    }
}

/// The image width of 32-word tiles is 8 pixels per tile.
proof fn lemma_tile_start_8_for(tiles: (u32, u32))
    ensures
        tiles.0 * 32 / 4 == tiles.0 * 8,
        tiles.1 * 32 / 4 == tiles.1 * 8,
{
    vstd::arithmetic::div_mod::lemma_fundamental_div_mod_converse(tiles.0 * 32, 4, tiles.0 * 8, 0);
    vstd::arithmetic::div_mod::lemma_fundamental_div_mod_converse(tiles.1 * 32, 4, tiles.1 * 8, 0);
}

/// Sums of the blue and green bytes depend only on the low 16 bits of each
/// word.
proof fn lemma_low_bits_totals(s1: Seq<u32>, s2: Seq<u32>)
    requires
        s1.len() == s2.len(),
        forall|i: int| 0 <= i < s1.len() ==> #[trigger] (s1[i] & 0xFFFFu32) == s2[i] & 0xFFFFu32,
    ensures
        channel_total(s1, 0) == channel_total(s2, 0),
        channel_total(s1, 8) == channel_total(s2, 8),
    decreases s1.len(),
{
    if s1.len() > 0 {
        lemma_low_bits_totals(s1.drop_last(), s2.drop_last());
        let a = s1.last();
        let b = s2.last();
        assert((a & 0xFFFFu32) == b & 0xFFFFu32);
        assert((a & 0xFFFFu32) == (b & 0xFFFFu32) ==> (a >> 0u32) & 0xFFu32 == (b >> 0u32) & 0xFFu32
            && (a >> 8u32) & 0xFFu32 == (b >> 8u32) & 0xFFu32) by (bit_vector);
    }
}

/// The reduced tiled image reads only the low 16 bits (blue and green) of
/// each word, and its red channel repeats its blue one.
pub proof fn lemma_small_image_reads_low_bytes(
    m1: Seq<u32>,
    m2: Seq<u32>,
    tilesize: u32,
    tiles: (u32, u32),
    n: int,
)
    requires
        0 <= n,
        16 * n <= m1.len(),
        m1.len() == m2.len(),
        forall|k: int| 0 <= k < m1.len() ==> #[trigger] (m1[k] & 0xFFFFu32) == m2[k] & 0xFFFFu32,
    ensures
        small_tiled_canvas(m1, tilesize, tiles, n) == small_tiled_canvas(m2, tilesize, tiles, n),
        forall|p: (u32, u32)|
            #[trigger] small_tiled_canvas(m1, tilesize, tiles, n).dom().contains(p) ==> small_tiled_canvas(
                m1,
                tilesize,
                tiles,
                n,
            )[p].0 == small_tiled_canvas(m1, tilesize, tiles, n)[p].2,
    decreases n,
{
    if n > 0 {
        lemma_small_image_reads_low_bytes(m1, m2, tilesize, tiles, n - 1);
        let s1 = m1.subrange(16 * (n - 1), 16 * n);
        let s2 = m2.subrange(16 * (n - 1), 16 * n);
        assert forall|i: int| 0 <= i < s1.len() implies #[trigger] (s1[i] & 0xFFFFu32) == s2[i]
            & 0xFFFFu32 by {
            assert(m1[16 * (n - 1) + i] & 0xFFFFu32 == m2[16 * (n - 1) + i] & 0xFFFFu32);
        }
        lemma_low_bits_totals(s1, s2);
        lemma_average_of_sixteen(s1);
        lemma_average_of_sixteen(s2);
    }
}

/// VC4 T-format, read back: with 32-pixel tiles, pixel `(x, y)` of the full
/// tiled image is framebuffer pixel `n`, where the tile is
/// `(y / 32) * columns + column`, `column` counting from the left on even tile
/// rows and from the right on odd ones; inside the tile the 16 x 16 block is
/// visited top-left, bottom-left, bottom-right, top-right on even tile rows
/// and bottom-right, top-right, top-left, bottom-left on odd ones; inside a
/// block, bands of 4 rows from the top, squares of 4 x 4 from the left, and
/// pixels row by row.
pub proof fn lemma_to_image_pixel_source(bytes: Seq<u8>, tiles: (u32, u32))
    requires
        tiles.0 * 32 <= u32::MAX,
        tiles.1 * 32 <= u32::MAX,
    ensures
        forall|x: u32, y: u32|
            x < tiles.0 * 32 && y < tiles.1 * 32 ==> #[trigger] tiled_canvas(
                bytes,
                32,
                tiles,
                1024 * tiles.0 * tiles.1,
            )[(x, y)] == {
                let tx = x / 32;
                let ty = y / 32;
                let column = if ty % 2 == 0 {
                    tx as int
                } else {
                    tiles.0 - 1 - tx
                };
                let right = (x % 32) >= 16;
                let lower = (y % 32) >= 16;
                let block = if ty % 2 == 0 {
                    if !right && !lower {
                        0int
                    } else if !right && lower {
                        1
                    } else if right && lower {
                        2
                    } else {
                        3
                    }
                } else {
                    if right && lower {
                        0int
                    } else if right && !lower {
                        1
                    } else if !right && !lower {
                        2
                    } else {
                        3
                    }
                };
                let n = (ty * tiles.0 + column) * 1024 + block * 256 + ((y % 16) / 4) * 64 + ((x % 16)
                    / 4) * 16 + (y % 4) * 4 + x % 4;
                (bytes[4 * n + 2], bytes[4 * n + 1], bytes[4 * n])
            },
{
    lemma_to_image_keeps_every_pixel(bytes, tiles);
    assert forall|x: u32, y: u32| x < tiles.0 * 32 && y < tiles.1 * 32 implies #[trigger] tiled_canvas(
        bytes,
        32,
        tiles,
        1024 * tiles.0 * tiles.1,
    )[(x, y)] == {
        let tx = x / 32;
        let ty = y / 32;
        let column = if ty % 2 == 0 {
            tx as int
        } else {
            tiles.0 - 1 - tx
        };
        let right = (x % 32) >= 16;
        let lower = (y % 32) >= 16;
        let block = if ty % 2 == 0 {
            if !right && !lower {
                0int
            } else if !right && lower {
                1
            } else if right && lower {
                2
            } else {
                3
            }
        } else {
            if right && lower {
                0int
            } else if right && !lower {
                1
            } else if !right && !lower {
                2
            } else {
                3
            }
        };
        let n = (ty * tiles.0 + column) * 1024 + block * 256 + ((y % 16) / 4) * 64 + ((x % 16) / 4)
            * 16 + (y % 4) * 4 + x % 4;
        (bytes[4 * n + 2], bytes[4 * n + 1], bytes[4 * n])
    } by {
        assert((x % 32) % 16 == x % 16 && ((x % 32) % 16) % 4 == x % 4 && (x % 32) / 16 == (if x % 32
            >= 16 {
            1u32
        } else {
            0u32
        })) by (bit_vector);
        assert((y % 32) % 16 == y % 16 && ((y % 32) % 16) % 4 == y % 4 && (y % 32) / 16 == (if y % 32
            >= 16 {
            1u32
        } else {
            0u32
        })) by (bit_vector);
        let k = tile_index(x as int, y as int, tiles.0 as int);
        assert(0 <= k < 1024 * tiles.0 * tiles.1);
    }
}

/// The reduced VC4 T-format, read back: with 32-word tiles, pixel `(x, y)` of
/// the reduced tiled image averages the 16 words from `16 * n` on, where the
/// tile is `(y / 8) * columns + column`, `column` counting from the left on
/// even tile rows and from the right on odd ones; inside the tile the 4 x 4
/// block is visited top-left, bottom-left, bottom-right, top-right on even
/// tile rows and bottom-right, top-right, top-left, bottom-left on odd ones,
/// and pixels row by row inside the block.
pub proof fn lemma_small_image_pixel_source(mapping: Seq<u32>, tiles: (u32, u32))
    requires
        tiles.0 * 32 <= u32::MAX,
        tiles.1 * 32 <= u32::MAX,
    ensures
        forall|x: u32, y: u32|
            x < tiles.0 * 8 && y < tiles.1 * 8 ==> #[trigger] small_tiled_canvas(
                mapping,
                32,
                tiles,
                64 * tiles.0 * tiles.1,
            )[(x, y)] == {
                let tx = x / 8;
                let ty = y / 8;
                let column = if ty % 2 == 0 {
                    tx as int
                } else {
                    tiles.0 - 1 - tx
                };
                let right = (x % 8) >= 4;
                let lower = (y % 8) >= 4;
                let block = if ty % 2 == 0 {
                    if !right && !lower {
                        0int
                    } else if !right && lower {
                        1
                    } else if right && lower {
                        2
                    } else {
                        3
                    }
                } else {
                    if right && lower {
                        0int
                    } else if right && !lower {
                        1
                    } else if !right && !lower {
                        2
                    } else {
                        3
                    }
                };
                let n = (ty * tiles.0 + column) * 64 + block * 16 + (y % 4) * 4 + x % 4;
                average_color(mapping.subrange(16 * n, 16 * n + 16))
            },
{
    lemma_small_image_keeps_every_group(mapping, tiles);
    lemma_tile_start_8_for(tiles);
    assert forall|x: u32, y: u32| x < tiles.0 * 8 && y < tiles.1 * 8 implies #[trigger] small_tiled_canvas(
        mapping,
        32,
        tiles,
        64 * tiles.0 * tiles.1,
    )[(x, y)] == {
        let tx = x / 8;
        let ty = y / 8;
        let column = if ty % 2 == 0 {
            tx as int
        } else {
            tiles.0 - 1 - tx
        };
        let right = (x % 8) >= 4;
        let lower = (y % 8) >= 4;
        let block = if ty % 2 == 0 {
            if !right && !lower {
                0int
            } else if !right && lower {
                1
            } else if right && lower {
                2
            } else {
                3
            }
        } else {
            if right && lower {
                0int
            } else if right && !lower {
                1
            } else if !right && !lower {
                2
            } else {
                3
            }
        };
        let n = (ty * tiles.0 + column) * 64 + block * 16 + (y % 4) * 4 + x % 4;
        average_color(mapping.subrange(16 * n, 16 * n + 16))
    } by {
        assert((x % 8) % 4 == x % 4 && (x % 8) / 4 == (if x % 8 >= 4 {
            1u32
        } else {
            0u32
        })) by (bit_vector);
        assert((y % 8) % 4 == y % 4 && (y % 8) / 4 == (if y % 8 >= 4 {
            1u32
        } else {
            0u32
        })) by (bit_vector);
        let k = small_tile_index(x as int, y as int, tiles.0 as int);
        assert(0 <= k < 64 * tiles.0 * tiles.1);
    }
}

/// BT.601 limited range in 8.8 fixed point: a `(Y, Cb, Cr)` pixel shows as
/// `R = (298 (Y - 16) + 409 (Cr - 128) + 128) >> 8`,
/// `G = (298 (Y - 16) - 100 (Cb - 128) - 208 (Cr - 128) + 128) >> 8` and
/// `B = (298 (Y - 16) + 516 (Cb - 128) + 128) >> 8`, each limited to `0..=255`.
pub proof fn lemma_yuv_conversion(y: u8, u: u8, v: u8)
    ensures
        ({
            let rgb = YUV420Pixel::from_components(y, u, v).spec_rgb();
            let r = (298 * (y - 16) + 409 * (v - 128) + 128) / 256;
            let g = (298 * (y - 16) - 100 * (u - 128) - 208 * (v - 128) + 128) / 256;
            let b = (298 * (y - 16) + 516 * (u - 128) + 128) / 256;
            &&& rgb.0 == (if r < 0 {
                0
            } else if r > 255 {
                255
            } else {
                r
            })
            &&& rgb.1 == (if g < 0 {
                0
            } else if g > 255 {
                255
            } else {
                g
            })
            &&& rgb.2 == (if b < 0 {
                0
            } else if b > 255 {
                255
            } else {
                b
            })
        }),
{
    YUV420Pixel::lemma_from_components(y, u, v);
}

/// Chroma moves the colour the way BT.601 says: more Cb never lowers blue,
/// never raises green and leaves red alone; more Cr never lowers red, never
/// raises green and leaves blue alone.
pub proof fn lemma_chroma_directions(y: u8, u1: u8, u2: u8, v1: u8, v2: u8)
    requires
        u1 <= u2,
        v1 <= v2,
    ensures
        ({
            let lo_u = YUV420Pixel::from_components(y, u1, v1).spec_rgb();
            let hi_u = YUV420Pixel::from_components(y, u2, v1).spec_rgb();
            let hi_v = YUV420Pixel::from_components(y, u1, v2).spec_rgb();
            &&& lo_u.0 == hi_u.0
            &&& lo_u.1 >= hi_u.1
            &&& lo_u.2 <= hi_u.2
            &&& lo_u.0 <= hi_v.0
            &&& lo_u.1 >= hi_v.1
            &&& lo_u.2 == hi_v.2
        }),
{
    lemma_yuv_conversion(y, u1, v1);
    lemma_yuv_conversion(y, u2, v1);
    lemma_yuv_conversion(y, u1, v2);
    let c = 298 * (y - 16);
    lemma_div_is_ordered(c - 100 * (u2 - 128) - 208 * (v1 - 128) + 128, c - 100 * (u1 - 128) - 208 * (
    v1 - 128) + 128, 256);
    lemma_div_is_ordered(c + 516 * (u1 - 128) + 128, c + 516 * (u2 - 128) + 128, 256);
    lemma_div_is_ordered(c + 409 * (v1 - 128) + 128, c + 409 * (v2 - 128) + 128, 256);
    lemma_div_is_ordered(c - 100 * (u1 - 128) - 208 * (v2 - 128) + 128, c - 100 * (u1 - 128) - 208 * (
    v1 - 128) + 128, 256);
}

/// Pixel `(x, y)` of the full-size 4:2:0 decode is the `(Y, Cb, Cr)` pixel
/// made of luma sample `y * pitch0 + x` of the first plane and chroma sample
/// `(y / 2) * pitch + x / 2` of the second (Cb) and third (Cr) planes.
pub proof fn lemma_yuv420_pixel_source(mappings: [&[u8]; 3], size: (u32, u32), pitches: [u32; 3])
    ensures
        forall|x: u32, y: u32|
            x < size.0 && y < size.1 ==> #[trigger] yuv420_pixels(mappings, size, pitches)[(x, y)]
                == YUV420Pixel::from_components(
                mappings[0]@[x + pitches[0] * y],
                mappings[1]@[x / 2 + pitches[1] * (y / 2)],
                mappings[2]@[x / 2 + pitches[2] * (y / 2)],
            ).spec_rgb(),
{
    assert forall|x: u32, y: u32| x < size.0 && y < size.1 implies #[trigger] yuv420_pixels(
        mappings,
        size,
        pitches,
    )[(x, y)] == YUV420Pixel::from_components(
        mappings[0]@[x + pitches[0] * y],
        mappings[1]@[x / 2 + pitches[1] * (y / 2)],
        mappings[2]@[x / 2 + pitches[2] * (y / 2)],
    ).spec_rgb() by {
        YUV420Pixel::lemma_from_components(
            mappings[0]@[x + pitches[0] * y],
            mappings[1]@[x / 2 + pitches[1] * (y / 2)],
            mappings[2]@[x / 2 + pitches[2] * (y / 2)],
        );
    }
}

/// Pixel `(x, y)` of the half-size 4:2:0 decode is the `(Y, Cb, Cr)` pixel
/// made of the mean, rounded down, of the luma block at `(2x, 2y)` and chroma
/// sample `y * pitch + x` of the second (Cb) and third (Cr) planes.
pub proof fn lemma_small_yuv420_pixel_source(
    mappings: [&[u8]; 3],
    size: (u32, u32),
    pitches: [u32; 3],
)
    ensures
        forall|x: u32, y: u32|
            x < size.0 / 2 && y < size.1 / 2 ==> #[trigger] small_yuv420_pixels(
                mappings,
                size,
                pitches,
            )[(x, y)] == {
                let luma = mappings[0]@;
                let top = 2 * y * pitches[0] + 2 * x;
                let bottom = (2 * y + 1) * pitches[0] + 2 * x;
                YUV420Pixel::from_components(
                    ((luma[top] + luma[top + 1] + luma[bottom] + luma[bottom + 1]) / 4) as u8,
                    mappings[1]@[x + pitches[1] * y],
                    mappings[2]@[x + pitches[2] * y],
                ).spec_rgb()
            },
{
    assert forall|x: u32, y: u32| x < size.0 / 2 && y < size.1 / 2 implies #[trigger] small_yuv420_pixels(
        mappings,
        size,
        pitches,
    )[(x, y)] == {
        let luma = mappings[0]@;
        let top = 2 * y * pitches[0] + 2 * x;
        let bottom = (2 * y + 1) * pitches[0] + 2 * x;
        YUV420Pixel::from_components(
            ((luma[top] + luma[top + 1] + luma[bottom] + luma[bottom + 1]) / 4) as u8,
            mappings[1]@[x + pitches[1] * y],
            mappings[2]@[x + pitches[2] * y],
        ).spec_rgb()
    } by {
        let luma = mappings[0]@;
        let top = 2 * y * pitches[0] + 2 * x;
        let bottom = (2 * y + 1) * pitches[0] + 2 * x;
        assert(bottom == top + pitches[0]) by (nonlinear_arith)
            requires
                top == 2 * y * pitches[0] + 2 * x,
                bottom == (2 * y + 1) * pitches[0] + 2 * x,
        ;
        YUV420Pixel::lemma_from_components(
            ((luma[top] + luma[top + 1] + luma[bottom] + luma[bottom + 1]) / 4) as u8,
            mappings[1]@[x + pitches[1] * y],
            mappings[2]@[x + pitches[2] * y],
        );
    }
}

/// Where a 2 x 2 luma block is uniform, the half-size decode shows at
/// `(x, y)` the same colour as the full-size decode at `(2x, 2y)`.
pub proof fn lemma_half_size_matches_full_size(
    mappings: [&[u8]; 3],
    size: (u32, u32),
    pitches: [u32; 3],
    x: u32,
    y: u32,
)
    requires
        x < size.0 / 2,
        y < size.1 / 2,
        ({
            let luma = mappings[0]@;
            let top = 2 * y * pitches[0] + 2 * x;
            let bottom = (2 * y + 1) * pitches[0] + 2 * x;
            &&& luma[top + 1] == luma[top]
            &&& luma[bottom] == luma[top]
            &&& luma[bottom + 1] == luma[top]
        }),
    ensures
        small_yuv420_pixels(mappings, size, pitches)[(x, y)] == yuv420_pixels(mappings, size, pitches)[(
            (2 * x) as u32,
            (2 * y) as u32,
        )],
{
    lemma_small_yuv420_pixel_source(mappings, size, pitches);
    lemma_yuv420_pixel_source(mappings, size, pitches);
    let x2 = (2 * x) as u32;
    let y2 = (2 * y) as u32;
    assert(x2 < size.0 && y2 < size.1);
    assert(x2 / 2 == x && y2 / 2 == y);
    assert(y2 * pitches[0] + x2 == 2 * y * pitches[0] + 2 * x);
    let luma = mappings[0]@;
    let l = luma[2 * y * pitches[0] + 2 * x];
    assert((l + l + l + l) / 4 == l);
    assert(small_yuv420_pixels(mappings, size, pitches)[(x, y)] == YUV420Pixel::from_components(
        l,
        mappings[1]@[x + pitches[1] * y],
        mappings[2]@[x + pitches[2] * y],
    ).spec_rgb());
}

/// `clamp` keeps a value inside `0..=255` and moves any other to the nearer
/// end.
pub proof fn lemma_clamp_range(v: int)
    ensures
        0 <= v <= 255 ==> clamp_value(v) == v,
        v < 0 ==> clamp_value(v) == 0,
        v > 255 ==> clamp_value(v) == 255,
{
}

/// Pixel `(x, y)` of a decoded XRGB framebuffer is word `x + (pitch / 4) * y`
/// with its third byte from the bottom as red, second as green and lowest as
/// blue.
pub proof fn lemma_xrgb_pixel_source(mapping: Seq<u32>, pitch: u32, size: (u32, u32))
    ensures
        forall|x: u32, y: u32|
            x < size.0 && y < size.1 ==> #[trigger] xrgb_pixels(mapping, pitch, size)[(x, y)] == {
                let w = mapping[x + (pitch / 4) * y];
                (((w >> 16u32) & 0xFFu32) as u8, ((w >> 8u32) & 0xFFu32) as u8, (w & 0xFFu32) as u8)
            },
{
    assert forall|x: u32, y: u32| x < size.0 && y < size.1 implies #[trigger] xrgb_pixels(
        mapping,
        pitch,
        size,
    )[(x, y)] == {
        let w = mapping[x + (pitch / 4) * y];
        (((w >> 16u32) & 0xFFu32) as u8, ((w >> 8u32) & 0xFFu32) as u8, (w & 0xFFu32) as u8)
    } by {
        let w = mapping[x + (pitch / 4) * y];
        assert(w == mapping[y * (pitch / 4) + x]);
        assert((w >> 16u32) & 0xFFu32 == (w / 0x10000) % 256 && (w >> 8u32) & 0xFFu32 == (w / 0x100)
            % 256 && w & 0xFFu32 == w % 256) by (bit_vector);
    }
}

/// Pixel `(x, y)` of a decoded RGB565 framebuffer is word `x + (pitch / 2) * y`
/// with its top 5 bits, middle 6 bits and low 5 bits each scaled to the
/// nearest 8-bit value (half up): `c * 255 / 31` or `c * 255 / 63`.
pub proof fn lemma_rgb565_pixel_source(mapping: Seq<u16>, pitch: u32, size: (u32, u32))
    ensures
        forall|x: u32, y: u32|
            x < size.0 && y < size.1 ==> #[trigger] rgb565_pixels(mapping, pitch, size)[(x, y)] == {
                let w = mapping[x + (pitch / 2) * y];
                let r = (w >> 11u16) as int;
                let g = ((w >> 5u16) & 0x3Fu16) as int;
                let b = (w & 0x1Fu16) as int;
                (((510 * r + 31) / 62) as u8, ((510 * g + 63) / 126) as u8, ((510 * b + 31) / 62) as u8)
            },
{
    assert forall|x: u32, y: u32| x < size.0 && y < size.1 implies #[trigger] rgb565_pixels(
        mapping,
        pitch,
        size,
    )[(x, y)] == {
        let w = mapping[x + (pitch / 2) * y];
        let r = (w >> 11u16) as int;
        let g = ((w >> 5u16) & 0x3Fu16) as int;
        let b = (w & 0x1Fu16) as int;
        (((510 * r + 31) / 62) as u8, ((510 * g + 63) / 126) as u8, ((510 * b + 31) / 62) as u8)
    } by {
        let w = mapping[x + (pitch / 2) * y];
        assert(w == mapping[y * (pitch / 2) + x]);
        assert(w >> 11u16 == w / 2048 && (w >> 5u16) & 0x3Fu16 == (w / 32) % 64 && w & 0x1Fu16 == w
            % 32) by (bit_vector);
        lemma_rgb565_rounds_to_nearest(w);
    }
}

} // verus!
