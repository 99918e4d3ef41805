//! The library's error type.

use vstd::prelude::*;

verus! {

/// `wgpu::CreateSurfaceError`, what creating a surface failed with.
#[verifier::external_type_specification]
#[verifier::external_body]
pub struct ExCreateSurfaceError(wgpu::CreateSurfaceError);

/// `wgpu::RequestDeviceError`, what requesting a device failed with.
#[verifier::external_type_specification]
#[verifier::external_body]
pub struct ExRequestDeviceError(wgpu::RequestDeviceError);

/// `wgpu::SurfaceError`, what acquiring a frame failed with.
#[verifier::external_type_specification]
#[verifier::external_body]
pub struct ExSurfaceError(wgpu::SurfaceError);

/// What a stage can fail with.
#[derive(Debug)]
#[non_exhaustive]
pub enum Error {
    /// No suitable adapter was found.
    AdapterNotFound,
    /// A pixel buffer was asked for with a width or height of zero.
    InvalidBufferSize { width: u32, height: u32 },
    /// A surface texture was asked for with a width or height of zero.
    InvalidSurfaceSize { width: u32, height: u32 },
    /// The window gave no surface.
    CreateSurface(wgpu::CreateSurfaceError),
    /// The adapter gave no device.
    Device(wgpu::RequestDeviceError),
    /// The surface gave no frame.
    Surface(wgpu::SurfaceError),
}

} // verus!
