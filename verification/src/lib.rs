//! A content-addressable object store that reads the loose-object and
//! pack formats of a widely used version-control system.

pub mod api;
pub mod delta;
pub mod error;
pub mod format;
pub mod index;
pub mod laws;
pub mod object;
pub mod pack;
pub mod repo;
pub mod text;
pub mod util;
