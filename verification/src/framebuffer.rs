//! Geometry of planar YUV 4:2:0 framebuffers and reading their pixels.
use crate::image_decoder::{lemma_yuv420_pixel_source, yuv420_pixels, ToRgb, YUV420Pixel};
use crate::rgb_image::{
    canvas_dims, new_canvas, put_canvas_pixel, rgb_buffer_fits,
};
use vstd::prelude::*;

verus! {

/// The description of a framebuffer that the kernel's `ADDFB2`/`GETFB2`
/// requests carry, field for field.
pub struct FramebufferInfo {
    pub fb_id: u32,
    pub width: u32,
    pub height: u32,
    pub pixel_format: u32,
    pub flags: u32,
    pub handles: [u32; 4],
    pub pitches: [u32; 4],
    pub offsets: [u32; 4],
    pub modifier: [u64; 4],
}

/// One plane of a planar image: `pitch` bytes per row, `size` in the units
/// the planes are described with, starting `offset` bytes into the buffer.
pub struct YUV420Plane {
    pub pitch: u32,
    pub size: (u32, u32),
    pub offset: u32,
}

impl YUV420Plane {
    /// Bytes the plane spans: `pitch` times the number of rows.
    pub fn len(&self) -> (r: usize)
        requires
            self.pitch * self.size.1 <= u32::MAX,
        ensures
            r == self.pitch * self.size.1,
    {
        (self.pitch * self.size.1) as usize
    }

    /// Byte just past the plane.
    pub fn end(&self) -> (r: usize)
        requires
            self.pitch * self.size.1 <= u32::MAX,
            self.offset + self.pitch * self.size.1 <= usize::MAX,
        ensures
            r == self.offset + self.pitch * self.size.1,
    {
        self.offset as usize + self.len()
    }

    /// Index of pixel `(x, y)` in the plane's own bytes.
    pub fn offset(&self, x: usize, y: usize) -> (r: usize)
        requires
            self.pitch * y + x <= usize::MAX,
        ensures
            r == self.pitch * y + x,
    {
        proof {
            vstd::arithmetic::mul::lemma_mul_nonnegative(self.pitch as int, y as int);
        }
        self.pitch as usize * y + x
    }
}

/// A 4:2:0 image: its size and its luma and two chroma planes.
pub struct YUV420 {
    pub size: (u32, u32),
    pub planes: [YUV420Plane; 3],
}

/// Plane `i` of the framebuffer: its pitch, a width equal to the pitch, and
/// as many rows as the height scaled by this plane's pitch over the first.
pub open spec fn plane_of(info: FramebufferInfo, i: int) -> YUV420Plane {
    YUV420Plane {
        pitch: info.pitches[i],
        size: (info.pitches[i], ((info.height * info.pitches[i]) / (info.pitches[0] as int)) as u32),
        offset: info.offsets[i],
    }
}

/// The first three planes of a framebuffer can be described.
pub open spec fn planes_describable(info: FramebufferInfo) -> bool {
    &&& info.pitches[0] != 0
    &&& forall|i: int| 0 <= i < 3 ==> info.height * #[trigger] info.pitches[i] <= u32::MAX
}

fn plane(fbinfo: &FramebufferInfo, i: usize) -> (p: YUV420Plane)
    requires
        i < 3,
        planes_describable(*fbinfo),
    ensures
        p == plane_of(*fbinfo, i as int),
{
    assert(fbinfo.height * fbinfo.pitches[i as int] <= u32::MAX);
    YUV420Plane {
        pitch: fbinfo.pitches[i],
        size: (fbinfo.pitches[i], fbinfo.height * fbinfo.pitches[i] / fbinfo.pitches[0]),
        offset: fbinfo.offsets[i],
    }
}

impl YUV420 {
    /// The geometry of a 4:2:0 framebuffer.
    pub fn from(fbinfo: FramebufferInfo) -> (r: YUV420)
        requires
            planes_describable(fbinfo),
        ensures
            r.size == (fbinfo.width, fbinfo.height),
            r.planes[0] == plane_of(fbinfo, 0),
            r.planes[1] == plane_of(fbinfo, 1),
            r.planes[2] == plane_of(fbinfo, 2),
    {
        YUV420 {
            size: (fbinfo.width, fbinfo.height),
            planes: [plane(&fbinfo, 0), plane(&fbinfo, 1), plane(&fbinfo, 2)],
        }
    }
}

/// Largest of three naturals.
pub open spec fn max3(a: int, b: int, c: int) -> int {
    if a >= b && a >= c {
        a
    } else if b >= c {
        b
    } else {
        c
    }
}

/// The end of a plane, where it fits in `usize`.
pub open spec fn plane_end(p: YUV420Plane) -> int {
    p.offset + p.pitch * p.size.1
}

/// The plane's length and end fit in their types.
pub open spec fn plane_end_fits(p: YUV420Plane) -> bool {
    p.pitch * p.size.1 <= u32::MAX && plane_end(p) <= usize::MAX
}

/// A mapped 4:2:0 framebuffer.
pub struct FramebufferYUV420 {
    pub info2: FramebufferInfo,
    pub planes: [YUV420Plane; 3],
}

impl FramebufferYUV420 {
    /// Bytes needed to hold every plane: the largest plane end.
    pub fn len(&self) -> (r: usize)
        requires
            plane_end_fits(self.planes[0]),
            plane_end_fits(self.planes[1]),
            plane_end_fits(self.planes[2]),
        ensures
            r == max3(
                plane_end(self.planes[0]),
                plane_end(self.planes[1]),
                plane_end(self.planes[2]),
            ),
    {
        let mut m = self.planes[0].end();
        let e1 = self.planes[1].end();
        if e1 > m {
            m = e1;
        }
        let e2 = self.planes[2].end();
        if e2 > m {
            m = e2;
        }
        m
    }
}

/// The length of a framebuffer reaches past the end of each of its planes.
pub proof fn lemma_len_covers_planes(fb: FramebufferYUV420)
    ensures
        forall|i: int|
            0 <= i < 3 ==> plane_end(#[trigger] fb.planes[i]) <= max3(
                plane_end(fb.planes[0]),
                plane_end(fb.planes[1]),
                plane_end(fb.planes[2]),
            ),
{
}

/// The largest of three plane ends, which `FramebufferYUV420::len` returns,
/// is one of them and at least each of them.
pub proof fn lemma_len_is_largest_end(a: int, b: int, c: int)
    ensures
        max3(a, b, c) >= a,
        max3(a, b, c) >= b,
        max3(a, b, c) >= c,
        max3(a, b, c) == a || max3(a, b, c) == b || max3(a, b, c) == c,
{
}

/// Plane `i` of a framebuffer has the frame's `i`-th pitch, a width equal
/// to that pitch, the frame's height scaled by its pitch over the first
/// plane's, and the frame's `i`-th offset.
pub proof fn lemma_plane_geometry(info: FramebufferInfo, i: int)
    requires
        0 <= i < 3,
        planes_describable(info),
    ensures
        plane_of(info, i).pitch == info.pitches[i],
        plane_of(info, i).size.0 == info.pitches[i],
        plane_of(info, i).size.1 * info.pitches[0] <= info.height * info.pitches[i],
        info.height * info.pitches[i] < (plane_of(info, i).size.1 + 1) * info.pitches[0],
        plane_of(info, i).offset == info.offsets[i],
{
    let n = info.height * info.pitches[i];
    let d = info.pitches[0] as int;
    assert(info.height * info.pitches[i] <= u32::MAX);
    vstd::arithmetic::div_mod::lemma_fundamental_div_mod(n, d);
    vstd::arithmetic::div_mod::lemma_div_pos_is_pos(n, d);
    assert(n / d <= n) by {
        vstd::arithmetic::div_mod::lemma_div_is_ordered_by_denominator(n, 1, d);
    }
    assert((n / d) * d <= n && n < (n / d + 1) * d) by (nonlinear_arith)
        requires
            n == d * (n / d) + n % d,
            0 <= n % d < d,
    ;
}

/// A framebuffer whose pixels, of type `P`, can be read from the mapped
/// memory of its (up to three) planes.
pub trait Framebuffer<P> {
    /// The framebuffer's description.
    spec fn spec_info(&self) -> FramebufferInfo;

    /// Pixel `(x, y)` can be read from `mappings`.
    spec fn readable(&self, mappings: [&[u8]; 3], x: usize, y: usize) -> bool;

    /// The pixel `get` reads.
    spec fn spec_get(&self, mappings: [&[u8]; 3], x: usize, y: usize) -> P;

    fn info(&self) -> (r: &FramebufferInfo)
        ensures
            *r == self.spec_info(),
    ;

    fn get(&self, mappings: [&[u8]; 3], x: usize, y: usize) -> (p: P)
        requires
            self.readable(mappings, x, y),
        ensures
            p == self.spec_get(mappings, x, y),
    ;
}

/// Index of `(x, y)` in a plane of the given pitch, if it fits in `usize` and
/// lies inside `mapping`.
pub open spec fn index_readable(pitch: u32, x: int, y: int, mapping: &[u8]) -> bool {
    pitch * y + x <= usize::MAX && pitch * y + x < mapping@.len()
}

impl Framebuffer<YUV420Pixel> for FramebufferYUV420 {
    open spec fn spec_info(&self) -> FramebufferInfo {
        self.info2
    }

    /// The luma sample of `(x, y)` and the chroma samples of its 2 x 2 block
    /// lie inside their planes.
    open spec fn readable(&self, mappings: [&[u8]; 3], x: usize, y: usize) -> bool {
        &&& index_readable(self.planes[0].pitch, x as int, y as int, mappings[0])
        &&& index_readable(self.planes[1].pitch, (x / 2) as int, (y / 2) as int, mappings[1])
        &&& index_readable(self.planes[2].pitch, (x / 2) as int, (y / 2) as int, mappings[2])
    }

    open spec fn spec_get(&self, mappings: [&[u8]; 3], x: usize, y: usize) -> YUV420Pixel {
        YUV420Pixel::from_components(
            mappings[0]@[self.planes[0].pitch * y + x],
            mappings[1]@[self.planes[1].pitch * (y / 2) + x / 2],
            mappings[2]@[self.planes[2].pitch * (y / 2) + x / 2],
        )
    }

    fn info(&self) -> (r: &FramebufferInfo) {
        &self.info2
    }

    fn get(&self, mappings: [&[u8]; 3], x: usize, y: usize) -> (p: YUV420Pixel) {
        let offset = self.planes[0].offset(x, y);
        let offset1 = self.planes[1].offset(x / 2, y / 2);
        let offset2 = self.planes[2].offset(x / 2, y / 2);
        YUV420Pixel::new(mappings[0][offset], mappings[1][offset1], mappings[2][offset2])
    }
}

/// Reading pixel `(x, y)` of a 4:2:0 framebuffer gives, in this order, luma
/// sample `pitch0 * y + x` of the first plane and chroma samples
/// `pitch * (y / 2) + x / 2` of the second (Cb) and third (Cr) planes.
pub proof fn lemma_get_reads_planes_in_order(
    fb: FramebufferYUV420,
    mappings: [&[u8]; 3],
    x: usize,
    y: usize,
)
    ensures
        fb.spec_get(mappings, x, y)@ == (
            mappings[0]@[fb.planes[0].pitch * y + x],
            mappings[1]@[fb.planes[1].pitch * (y / 2) + x / 2],
            mappings[2]@[fb.planes[2].pitch * (y / 2) + x / 2],
        ),
{
    YUV420Pixel::lemma_from_components(
        mappings[0]@[fb.planes[0].pitch * y + x],
        mappings[1]@[fb.planes[1].pitch * (y / 2) + x / 2],
        mappings[2]@[fb.planes[2].pitch * (y / 2) + x / 2],
    );
}

/// The full-size 4:2:0 decode shows at `(x, y)` the colour of the pixel a
/// framebuffer with the same plane pitches reads there.
pub proof fn lemma_decode_matches_framebuffer_read(
    fb: FramebufferYUV420,
    mappings: [&[u8]; 3],
    size: (u32, u32),
    pitches: [u32; 3],
    x: u32,
    y: u32,
)
    requires
        fb.planes[0].pitch == pitches[0],
        fb.planes[1].pitch == pitches[1],
        fb.planes[2].pitch == pitches[2],
        x < size.0,
        y < size.1,
    ensures
        yuv420_pixels(mappings, size, pitches)[(x, y)] == fb.spec_get(
            mappings,
            x as usize,
            y as usize,
        ).spec_rgb(),
{
    lemma_yuv420_pixel_source(mappings, size, pitches);
    lemma_get_reads_planes_in_order(fb, mappings, x as usize, y as usize);
    assert(yuv420_pixels(mappings, size, pitches)[(x, y)] == YUV420Pixel::from_components(
        mappings[0]@[x + pitches[0] * y],
        mappings[1]@[x / 2 + pitches[1] * (y / 2)],
        mappings[2]@[x / 2 + pitches[2] * (y / 2)],
    ).spec_rgb());
    assert(pitches[0] * y == y * pitches[0]) by (nonlinear_arith);
    assert(pitches[1] * (y / 2) == (y / 2) * pitches[1]) by (nonlinear_arith);
    assert(pitches[2] * (y / 2) == (y / 2) * pitches[2]) by (nonlinear_arith);
    YUV420Pixel::lemma_from_components(
        mappings[0]@[x + pitches[0] * y],
        mappings[1]@[x / 2 + pitches[1] * (y / 2)],
        mappings[2]@[x / 2 + pitches[2] * (y / 2)],
    );
}

/// Copies a framebuffer's pixels into an RGB image.
pub struct FramebufferCopy<'a, F> {
    fb: &'a F,
}

impl<'a, F> FramebufferCopy<'a, F> {
    /// The framebuffer being copied.
    pub closed spec fn source(&self) -> F {
        *self.fb
    }

    /// Reads every pixel of the framebuffer and converts it to RGB, into an
    /// image that is then dropped.
    pub fn decode_image<P: ToRgb>(&self, mappings: [&[u8]; 3])
        where
            F: Framebuffer<P>,
        requires
            rgb_buffer_fits(self.source().spec_info().width, self.source().spec_info().height),
            forall|x: usize, y: usize|
                x < self.source().spec_info().width && y < self.source().spec_info().height
                    ==> #[trigger] self.source().readable(mappings, x, y),
    {
        let info = self.fb.info();
        let mut img = new_canvas(info.width, info.height);
        for y in 0..info.height
            invariant
                *info == self.source().spec_info(),
                canvas_dims(img) == (info.width, info.height),
                forall|x: usize, y: usize|
                    x < self.source().spec_info().width && y < self.source().spec_info().height
                        ==> #[trigger] self.source().readable(mappings, x, y),
        {
            for x in 0..info.width
                invariant
                    y < info.height,
                    *info == self.source().spec_info(),
                    canvas_dims(img) == (info.width, info.height),
                    forall|x: usize, y: usize|
                        x < self.source().spec_info().width && y < self.source().spec_info().height
                            ==> #[trigger] self.source().readable(mappings, x, y),
            {
                let p = self.fb.get(mappings, x as usize, y as usize);
                put_canvas_pixel(&mut img, x, y, p.rgb());
            }
        }
    }
}

/// `XR24`: 32-bit `0x00RRGGBB` pixels.
pub const FORMAT_XRGB8888: u32 = 0x3432_5258;

/// `AR24`: 32-bit `0xAARRGGBB` pixels.
pub const FORMAT_ARGB8888: u32 = 0x3432_5241;

/// `RG16`: 16-bit RGB565 pixels.
pub const FORMAT_RGB565: u32 = 0x3631_4752;

/// `YU12`: planar YUV 4:2:0, luma then Cb then Cr.
pub const FORMAT_YUV420: u32 = 0x3231_5559;

/// Rows of pixels one after the other.
pub const MODIFIER_LINEAR: u64 = 0;

/// Broadcom VC4 T-format: 4 KiB tiles of 32 x 32 pixels in serpentine order.
pub const MODIFIER_VC4_T_TILED: u64 = 0x0700_0000_0000_0001;

/// Which decoder reads a framebuffer, with the arguments it takes besides
/// the mapped memory.
#[derive(Clone, Copy, Debug, PartialEq, Eq)]
pub enum DecodePlan {
    /// `decode_image` with this pitch.
    Xrgb { pitch: u32 },
    /// `rgb565_to_rgb888` with this pitch.
    Rgb565 { pitch: u32 },
    /// `decode_image_multichannel` with these pitches.
    Yuv420 { pitches: [u32; 3] },
    /// `to_image` with this tile size and tile count.
    Tiled { tilesize: u32, tiles: (u32, u32) },
}

/// The decoder for a framebuffer's format and layout, if there is one.
pub open spec fn spec_decode_plan(info: FramebufferInfo) -> Option<DecodePlan> {
    let format = info.pixel_format;
    let modifier = info.modifier[0];
    if format == FORMAT_XRGB8888 || format == FORMAT_ARGB8888 {
        if modifier == MODIFIER_LINEAR {
            Some(DecodePlan::Xrgb { pitch: info.pitches[0] })
        } else if modifier == MODIFIER_VC4_T_TILED {
            Some(
                DecodePlan::Tiled {
                    tilesize: 32,
                    tiles: (info.pitches[0] / 128, ((info.height + 31) / 32) as u32),
                },
            )
        } else {
            None
        }
    } else if modifier != MODIFIER_LINEAR {
        None
    } else if format == FORMAT_RGB565 {
        Some(DecodePlan::Rgb565 { pitch: info.pitches[0] })
    } else if format == FORMAT_YUV420 {
        Some(DecodePlan::Yuv420 { pitches: [info.pitches[0], info.pitches[1], info.pitches[2]] })
    } else {
        None
    }
}

/// Chooses the decoder for a framebuffer from its pixel format and the
/// modifier of its first plane; a T-tiled buffer has a 128-byte-wide tile
/// column per 32 pixels of pitch and as many tile rows as cover its height.
pub fn decode_plan(info: &FramebufferInfo) -> (r: Option<DecodePlan>)
    ensures
        r == spec_decode_plan(*info),
{
    let format = info.pixel_format;
    let modifier = info.modifier[0];
    if format == FORMAT_XRGB8888 || format == FORMAT_ARGB8888 {
        if modifier == MODIFIER_LINEAR {
            Some(DecodePlan::Xrgb { pitch: info.pitches[0] })
        } else if modifier == MODIFIER_VC4_T_TILED {
            let rows = info.height / 32 + if info.height % 32 != 0 {
                1
            } else {
                0
            };
            Some(DecodePlan::Tiled { tilesize: 32, tiles: (info.pitches[0] / 128, rows) })
        } else {
            None
        }
    } else if modifier != MODIFIER_LINEAR {
        None
    } else if format == FORMAT_RGB565 {
        Some(DecodePlan::Rgb565 { pitch: info.pitches[0] })
    } else if format == FORMAT_YUV420 {
        Some(DecodePlan::Yuv420 { pitches: [info.pitches[0], info.pitches[1], info.pitches[2]] })
    } else {
        None
    }
}

/// Which framebuffers get which decoder: linear `XR24`/`AR24` the XRGB
/// decoder and T-tiled ones the tiled decoder with one tile column per 128
/// bytes of pitch and enough 32-row tiles to cover the height; linear `RG16`
/// the RGB565 decoder; linear `YU12` the 4:2:0 decoder with the first three
/// pitches; nothing else a decoder.
pub proof fn lemma_decode_plan_cases(info: FramebufferInfo)
    ensures
        ({
            let f = info.pixel_format;
            let m = info.modifier[0];
            let plan = spec_decode_plan(info);
            &&& (f == 0x3432_5258 || f == 0x3432_5241) && m == 0 ==> plan == Some(
                DecodePlan::Xrgb { pitch: info.pitches[0] },
            )
            &&& (f == 0x3432_5258 || f == 0x3432_5241) && m == 0x0700_0000_0000_0001 ==> plan
                == Some(
                DecodePlan::Tiled {
                    tilesize: 32,
                    tiles: (info.pitches[0] / 128, ((info.height + 31) / 32) as u32),
                },
            )
            &&& f == 0x3631_4752 && m == 0 ==> plan == Some(
                DecodePlan::Rgb565 { pitch: info.pitches[0] },
            )
            &&& f == 0x3231_5559 && m == 0 ==> plan == Some(
                DecodePlan::Yuv420 { pitches: [info.pitches[0], info.pitches[1], info.pitches[2]] },
            )
            &&& plan is Some ==> (f == 0x3432_5258 || f == 0x3432_5241 || f == 0x3631_4752 || f
                == 0x3231_5559)
            &&& plan is Some && m != 0 ==> m == 0x0700_0000_0000_0001 && (f == 0x3432_5258 || f
                == 0x3432_5241)
        }),
{
}

} // verus!
