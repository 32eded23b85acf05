//! Tools around a tagged-union value model: flattening a nested value into a
//! single-depth map with synthesized path keys, and inferring the type of a raw
//! string.
use vstd::prelude::*;

pub mod text;
pub mod value;
pub mod detect;
pub mod laws;
pub mod flatmap;
pub mod flatten;

pub use detect::try_detect_type;
pub use flatmap::FlatMap;
pub use flatten::{to_flatten_maptree, FlatSerializer, FlattenError};
pub use value::Value;
