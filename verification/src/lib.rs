//! Exact simulation of axis-aligned rigid bodies that move and collide:
//! shape geometry, a spatial index that predicts contact events in continuous
//! time, a sliding-contact collision resolver, and a system that runs the
//! simulation in ticks of fixed length.
//!
//! Every length, velocity and instant is a whole number of fixed-point units.
//! A world unit of length is `geom::SCALE` units, a tick is
//! `systems::tick::TICK` time units, and a velocity is a count of length
//! units per time unit. All arithmetic is exact, so that what is stated of
//! an operation holds without any tolerance.

pub mod components;
pub mod geom;
pub mod index;
pub mod input;
pub mod level;
pub mod physics;
pub mod resources;
pub mod state;
pub mod state_laws;
pub mod sweep;
pub mod systems;
