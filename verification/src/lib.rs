//! Decoding of DRM framebuffer captures into RGB images.
//!
//! - `image_decoder`: pixel formats (XRGB, RGB565, YUV 4:2:0, tiled BGRX)
//!   and the decoders that turn a mapped framebuffer into an image;
//! - `tiled_layout`: where the tiled formats put each pixel;
//! - `framebuffer`: geometry of planar framebuffers and the choice of decoder;
//! - `scanout`: the search for the framebuffer on screen;
//! - `rgb_image`: the image buffer of the `image` crate the decoders fill.
pub mod framebuffer;
pub mod image_decoder;
pub mod rgb_image;
pub mod scanout;
pub mod tiled_layout;
