//! CPU-side pixel stages: a pixel buffer, tile-granular dirty tracking that
//! turns writes into a short list of upload rectangles, and the scaling that
//! places the buffer on a window surface.

pub mod argb1555;
pub mod dirty;
pub mod error;
pub mod grid;
pub mod indexed;
pub mod options;
pub mod rect;
pub mod render;
pub mod scaling;
pub mod stage;
pub mod surface;
pub mod sweep;

pub use argb1555::PixstageArgb1555;
pub use dirty::DirtyTiles;
pub use error::Error;
pub use indexed::PixstageIndexed;
pub use options::PixstageOptions;
pub use rect::Rect;
pub use scaling::{Filter, Ratio, ScalingMode, ScalingState};
pub use stage::Frame;
pub use surface::SurfaceTexture;
pub use sweep::TileSpan;
