use drm_grabber::framebuffer::{
    decode_plan, DecodePlan, Framebuffer, FramebufferInfo, FramebufferYUV420, YUV420Plane, YUV420,
};
use drm_grabber::image_decoder::ToRgb;

fn info(width: u32, height: u32, pitches: [u32; 4], offsets: [u32; 4]) -> FramebufferInfo {
    FramebufferInfo {
        fb_id: 7,
        width,
        height,
        pixel_format: 0,
        flags: 0,
        handles: [1, 1, 1, 0],
        pitches,
        offsets,
        modifier: [0; 4],
    }
}

#[test]
fn plane_len_end_offset() {
    let p = YUV420Plane { pitch: 64, size: (64, 10), offset: 100 };
    assert_eq!(p.len(), 640);
    assert_eq!(p.end(), 740);
    assert_eq!(p.offset(3, 2), 131);
    assert_eq!(p.offset(0, 0), 0);
}

#[test]
fn yuv420_from_framebuffer_info() {
    let y = YUV420::from(info(1920, 1080, [1920, 960, 960, 0], [0, 2073600, 2592000, 0]));
    assert_eq!(y.size, (1920, 1080));
    assert_eq!(y.planes[0].pitch, 1920);
    assert_eq!(y.planes[0].size, (1920, 1080));
    assert_eq!(y.planes[0].offset, 0);
    assert_eq!(y.planes[1].pitch, 960);
    assert_eq!(y.planes[1].size, (960, 540));
    assert_eq!(y.planes[1].offset, 2073600);
    assert_eq!(y.planes[2].size, (960, 540));
    assert_eq!(y.planes[2].offset, 2592000);
    assert_eq!(y.planes[2].end(), 2592000 + 960 * 540);
}

#[test]
fn framebuffer_len_is_largest_plane_end() {
    let y = YUV420::from(info(4, 4, [4, 2, 2, 0], [0, 16, 20, 0]));
    let fb = FramebufferYUV420 { info2: info(4, 4, [4, 2, 2, 0], [0, 16, 20, 0]), planes: y.planes };
    assert_eq!(fb.len(), 24);
    let fb2 = FramebufferYUV420 {
        info2: info(4, 4, [4, 2, 2, 0], [0, 16, 20, 0]),
        planes: [
            YUV420Plane { pitch: 4, size: (4, 4), offset: 100 },
            YUV420Plane { pitch: 2, size: (2, 2), offset: 0 },
            YUV420Plane { pitch: 2, size: (2, 2), offset: 4 },
        ],
    };
    assert_eq!(fb2.len(), 116);
}

#[test]
fn framebuffer_get_reads_the_planes() {
    let planes = [
        YUV420Plane { pitch: 4, size: (4, 2), offset: 0 },
        YUV420Plane { pitch: 2, size: (2, 1), offset: 8 },
        YUV420Plane { pitch: 2, size: (2, 1), offset: 10 },
    ];
    let fb = FramebufferYUV420 { info2: info(4, 2, [4, 2, 2, 0], [0, 8, 10, 0]), planes };
    let luma = [16u8, 17, 18, 19, 235, 21, 22, 23];
    let cb = [128u8, 1];
    let cr = [128u8, 2];
    let p = fb.get([&luma, &cb, &cr], 0, 1);
    assert_eq!(p.rgb(), (255, 255, 255));
    let p = fb.get([&luma, &cb, &cr], 0, 0);
    assert_eq!(p.rgb(), (0, 0, 0));
    assert_eq!(fb.info().width, 4);
    assert_eq!(fb.info().fb_id, 7);
}

#[test]
fn decode_plan_by_format_and_modifier() {
    let mut fb = info(1920, 1080, [7680, 0, 0, 0], [0; 4]);
    fb.pixel_format = 0x3432_5258; // XR24
    assert_eq!(decode_plan(&fb), Some(DecodePlan::Xrgb { pitch: 7680 }));
    fb.pixel_format = 0x3432_5241; // AR24
    assert_eq!(decode_plan(&fb), Some(DecodePlan::Xrgb { pitch: 7680 }));
    fb.modifier[0] = 0x0700_0000_0000_0001; // VC4 T-tiled
    // 7680 / 128 = 60 tile columns, 1080 / 32 rounded up = 34 tile rows
    assert_eq!(decode_plan(&fb), Some(DecodePlan::Tiled { tilesize: 32, tiles: (60, 34) }));
    fb.modifier[0] = 5;
    assert_eq!(decode_plan(&fb), None);
    let mut fb = info(640, 480, [1280, 0, 0, 0], [0; 4]);
    fb.pixel_format = 0x3631_4752; // RG16
    assert_eq!(decode_plan(&fb), Some(DecodePlan::Rgb565 { pitch: 1280 }));
    fb.modifier[0] = 0x0700_0000_0000_0001;
    assert_eq!(decode_plan(&fb), None);
    let mut fb = info(640, 480, [640, 320, 320, 0], [0, 307200, 384000, 0]);
    fb.pixel_format = 0x3231_5559; // YU12
    assert_eq!(decode_plan(&fb), Some(DecodePlan::Yuv420 { pitches: [640, 320, 320] }));
    fb.pixel_format = 0x3231_564E; // NV12: not decoded
    assert_eq!(decode_plan(&fb), None);
    let mut fb = info(64, 64, [256, 0, 0, 0], [0; 4]);
    fb.pixel_format = 0x3432_5258;
    fb.modifier[0] = 0x0700_0000_0000_0001;
    assert_eq!(decode_plan(&fb), Some(DecodePlan::Tiled { tilesize: 32, tiles: (2, 2) }));
}
