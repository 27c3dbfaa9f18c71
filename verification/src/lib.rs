//! A particle-life engine: particles of several species in a plane, each
//! drawn to or driven from the particles around it by a force that depends
//! on the two species.
//!
//! The world is a grid of square cells, and every particle is kept in the
//! list of the cell that its position falls in, so that a step looks only
//! at the particles of a cell and of the eight cells around it. Numbers are
//! fixed-point: see [`fixed`]. What each function does is stated in its
//! contract and proved.

pub mod fixed;
pub mod matrix;
pub mod random;

pub mod params;
pub mod particle;
pub mod type_data;

pub mod grid;
pub mod forces;
pub mod organize;
pub mod parallel;
pub mod simulation;
pub mod wrapping;

pub mod metadata;
pub mod render;
pub mod setup;
