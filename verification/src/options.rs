//! Options shared by all stages.

use vstd::prelude::*;
use crate::scaling::ScalingMode;

verus! {

/// `wgpu::Backends`, a set of GPU backends. The library carries it through.
#[verifier::external_type_specification]
#[verifier::external_body]
pub struct ExBackends(wgpu::Backends);

/// `wgpu::PresentMode`, the policy by which frames reach the display. The
/// library carries it through and compares it for equality.
#[verifier::external_type_specification]
#[verifier::external_body]
pub struct ExPresentMode(wgpu::PresentMode);

/// `wgpu::Color`, a colour of four channels. The library carries it through.
#[verifier::external_type_specification]
#[verifier::external_body]
pub struct ExColor(wgpu::Color);

/// Options shared by all stages.
#[derive(Debug, Copy, Clone)]
pub struct PixstageOptions {
    pub backends: wgpu::Backends,
    pub present_mode: wgpu::PresentMode,
    pub scaling_mode: ScalingMode,
    pub clear_color: wgpu::Color,
}

/// Calls `wgpu::Backends::from_env`, which reads the backends named by the
/// variable `WGPU_BACKEND`, if it is set. Nothing is claimed of the result:
/// it depends on the environment.
#[verifier::external_body]
fn backends_from_env() -> Option<wgpu::Backends> {
    wgpu::Backends::from_env()
}

/// Calls `wgpu::Backends::all`, the set of every backend. Nothing is claimed
/// of the result.
#[verifier::external_body]
fn all_backends() -> wgpu::Backends {
    wgpu::Backends::all()
}

/// Hands out `wgpu::PresentMode::AutoVsync`. Nothing is claimed of the
/// result.
#[verifier::external_body]
fn auto_vsync() -> wgpu::PresentMode {
    wgpu::PresentMode::AutoVsync
}

/// Hands out `wgpu::Color::BLACK`. Nothing is claimed of the result.
#[verifier::external_body]
fn black() -> wgpu::Color {
    wgpu::Color::BLACK
}

/// Calls `==` of `wgpu::PresentMode`, which `derive` wrote for an enum
/// without fields: two modes are equal exactly when they are the same
/// variant, that is the same value.
#[verifier::external_body]
fn same_present_mode(a: &wgpu::PresentMode, b: &wgpu::PresentMode) -> (same: bool)
    ensures
        same == (*a == *b),
{
    a == b
}

impl Default for PixstageOptions {
    /// The backends that the environment names, or else all of them; frames
    /// in step with the display; whole-factor scaling; a black clear colour.
    fn default() -> (options: Self)
        ensures
            options.scaling_mode == ScalingMode::PixelPerfect,
    {
        let backends: wgpu::Backends = match backends_from_env() {
            Some(named) => named,
            None => all_backends(),
        };
        PixstageOptions {
            backends,
            present_mode: auto_vsync(),
            scaling_mode: ScalingMode::PixelPerfect,
            clear_color: black(),
        }
    }
}

impl PixstageOptions {
    /// The options with these backends.
    pub fn with_backends(self, backends: wgpu::Backends) -> (options: Self)
        ensures
            options == (PixstageOptions { backends, ..self }),
    {
        PixstageOptions { backends, ..self }
    }

    /// The options with this present mode.

    pub fn with_present_mode(self, present_mode: wgpu::PresentMode) -> (options: Self)
        ensures
            options == (PixstageOptions { present_mode, ..self }),
    {
        PixstageOptions { present_mode, ..self }
    }

    /// The options with this scaling mode.

    pub fn with_scaling_mode(self, scaling_mode: ScalingMode) -> (options: Self)
        ensures
            options == (PixstageOptions { scaling_mode, ..self }),
    {
        PixstageOptions { scaling_mode, ..self }
    }

    /// The options with this clear colour.

    pub fn with_clear_color(self, clear_color: wgpu::Color) -> (options: Self)
        ensures
            options == (PixstageOptions { clear_color, ..self }),
    {
        PixstageOptions { clear_color, ..self }
    }
}

/// The present mode to configure a surface with: the wanted one where the
/// surface supports it, else the fallback.
pub fn supported_present_mode(
    wanted: wgpu::PresentMode,
    supported: &Vec<wgpu::PresentMode>,
    fallback: wgpu::PresentMode,
) -> (chosen: wgpu::PresentMode)
    ensures
        chosen == if supported@.contains(wanted) {
            wanted
        } else {
            fallback
        },
{
    let mut i: usize = 0;
    while i < supported.len()
        invariant
            i <= supported@.len(),
            forall|k: int| 0 <= k < i ==> supported@[k] != wanted,
        decreases supported@.len() - i,
    {
        if same_present_mode(&supported[i], &wanted) {
            return wanted;
        }
        i += 1;
    }
    fallback
}

/// The place of the surface format to configure a surface with, in the
/// list of the formats that it supports: the first sRGB format, or the
/// first format where none is sRGB. `is_srgb` says of each format in the
/// list whether it is an sRGB format.
pub fn preferred_format(is_srgb: &Vec<bool>) -> (place: usize)
    requires
        is_srgb@.len() > 0,
    ensures
        place < is_srgb@.len(),
        forall|k: int| 0 <= k < place ==> !is_srgb@[k],
        is_srgb@[place as int] || (place == 0 && forall|k: int|
            0 <= k < is_srgb@.len() ==> !is_srgb@[k]),
{
    let mut i: usize = 0;
    while i < is_srgb.len()
        invariant
            i <= is_srgb@.len(),
            forall|k: int| 0 <= k < i ==> !is_srgb@[k],
        decreases is_srgb@.len() - i,
    {
        if is_srgb[i] {
            return i;
        }
        i += 1;
    }
    0
}

} // verus!
