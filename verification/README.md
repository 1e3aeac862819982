# drm_grabber

Decoding of DRM framebuffer captures into RGB images, verified with Verus.

- `src/image_decoder.rs`: pixel types (`RgbPixel`, `YUV420Pixel`, `Rgb565`,
  `PixelAverage`) and the decoders for linear XRGB, RGB565, planar YUV 4:2:0
  (full and half size) and the two tiled BGRX layouts. Each decoder's
  contract gives every pixel of the image it returns.
- `src/tiled_layout.rs`: where the tiled layouts put each pixel, and the
  proof that with 32-pixel tiles every place of the image receives exactly
  one pixel.
- `src/framebuffer.rs`: plane geometry of YUV 4:2:0 framebuffers, reading
  their pixels, and the choice of decoder for a framebuffer's format.
- `src/scanout.rs`: the search for the framebuffer on screen, as a step
  function driven by the caller's device queries.
- `src/rgb_image.rs`: the `image::RgbImage` the decoders fill, described by
  the trusted contracts of the three `image` calls the library makes.
- `app/main.rs`: the command-line program: device access, memory mapping,
  and saving the screenshot.
