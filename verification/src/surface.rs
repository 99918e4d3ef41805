//! The size of a window surface and the window it belongs to.

use vstd::prelude::*;
use crate::error::Error;

verus! {

/// A logical texture for a window surface: the window and the surface's size
/// in physical pixels, neither extent zero.
#[derive(Debug)]
pub struct SurfaceTexture<W> {
    window: W,
    width: u32,
    height: u32,
}

impl<W> SurfaceTexture<W> {
    /// The surface's width and height.
    pub closed spec fn spec_size(&self) -> (u32, u32) {
        (self.width, self.height)
    }

    /// The window that the surface belongs to.

    pub closed spec fn spec_window(&self) -> W {
        self.window
    }

    /// Both extents are positive.
    pub open spec fn wf(&self) -> bool {
        self.spec_size().0 > 0 && self.spec_size().1 > 0
    }

    /// A surface texture of the given size for `window`.
    ///
    /// The size should be that of the surface in physical pixels. A width or
    /// height of zero is refused.
    pub fn new(width: u32, height: u32, window: W) -> (texture: Result<Self, Error>)
        ensures
            width == 0 || height == 0 ==> texture is Err && texture->Err_0 == (
            Error::InvalidSurfaceSize { width, height }),
            width > 0 && height > 0 ==> texture is Ok && texture->Ok_0.spec_size() == (width, height)
                && texture->Ok_0.spec_window() == window && texture->Ok_0.wf(),
    {
        if width == 0 || height == 0 {
            return Err(Error::InvalidSurfaceSize { width, height });
        }
        Ok(SurfaceTexture { window, width, height })
    }

    /// The surface's width and height in physical pixels.

    pub fn size(&self) -> (size: (u32, u32))
        ensures
            size == self.spec_size(),
    {
        (self.width, self.height)
    }

    /// The window, given back.
    pub fn into_window(self) -> (window: W)
        ensures
            window == self.spec_window(),
    {
        self.window
    }
}

} // verus!
