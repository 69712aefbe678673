//! A compact binary encoding of 2-D vector geometries with a leading byte
//! order marker and a spatial reference identifier; zero-copy views over it;
//! a WKT text reader and printer; an in-place coordinate rewrite; and the
//! planning, cursor and storage logic of a spatial index over such values.
pub mod scalar;
pub mod layout;
pub mod srid;
pub mod geob;
pub mod views;
pub mod equality;
pub mod assemble;
pub mod wkt_write;
pub mod wkt_read;
pub mod projection;
pub mod plan;
pub mod query;
pub mod index;
pub mod tree;
pub mod template;

pub use geob::{GeoType, Geob};
pub use srid::{EPSG, SRID};
pub use views::GeobRef;
pub mod round_trip;
pub mod rewrite;
