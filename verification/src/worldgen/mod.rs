//! World-generation layers that live on the lattice: the east/west river
//! divide, the rough-ground margin, the distance-to-rough apron, and the named
//! hand-built test maps.

pub mod river_side;
pub mod rough;
pub mod soil_texture;
pub mod testmap;
pub mod vegetation;
