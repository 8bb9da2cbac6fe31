//! Core of a grid-based colony simulation: structure placement on a layered
//! cell map, flood-fill connectivity to anchor blocks, a tick-driven resource
//! economy with capacity clamping and conversion flows, and a per-structure
//! construction/destruction lifecycle.
//!
//! All quantities are fixed-point integers: world positions in hundredths of
//! a world unit, cargo amounts in thousandths of a unit, times in
//! milliseconds. Rendering, input capture and audio live outside this crate
//! and talk to it through plain values.

pub mod grid;
pub mod connectivity;
pub mod economy;
pub mod kind;
pub mod lifecycle;
pub mod map;
pub mod sim;
