//! A tiling-layout tree: a hierarchy of rectangular display regions, as a
//! tiling window manager subdivides screen space into splits and leaf
//! windows, together with a flat boundary encoding that hands the tree to a
//! caller outside the owner's memory domain and reclaims it.

pub mod boundary;
pub mod laws;
pub mod lemmas;
pub mod model;
pub mod surface;
pub mod tiler;
