//! Core of a small planetary-motion simulator.
//!
//! The crate has two halves: `sim` holds the per-body state of the
//! simulation together with the bookkeeping rules that decide, after each
//! integration step, which candidate values are committed (positions,
//! velocities, the orbit trail, the distance to the anchor body); `raster`
//! holds the integer pixel primitives that render bodies and their trails
//! into a frame buffer.

pub mod raster;
pub mod sim;
