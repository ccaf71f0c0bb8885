//! Application icon processing: cache keys and blobs, base64 and SVG embedding,
//! silhouette measurements, plate planning and icon name resolution.

pub mod base64;
pub mod bitmap;
pub mod cache;
pub mod disk_cache;
pub mod lookup;
pub mod pixmap;
pub mod plate;
pub mod profile;
pub mod raster;
pub mod search;
pub mod text;

pub use base64::base64_encode;
pub use bitmap::IconBitmap;
pub use disk_cache::fnv1a_64;
pub use plate::{MattingStrategy, PlateTheme};
pub use search::{resolve_icon, resolve_icon_uncached};
pub use raster::{rasterize_image_data, RasterError};
pub use tiny_skia::Pixmap;
