//! Integer core of the Mesopotamia steppe simulation and its Driftscape terminal
//! screensaver: lattice geometry, wavefront distance fields, least-cost channel
//! carving, mask dilation, the half-block canvas, and the small data tables that
//! drive world generation.

pub mod field;
pub mod driftscape;
pub mod wave;
pub mod grid;
pub mod river;
pub mod worldgen;
pub mod shrub_tile;
pub mod elk;
pub mod events;
pub mod history;
pub mod settings;
pub mod random;
pub mod flower_tile;
