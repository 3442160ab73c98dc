//! A verified solver and enumerator for the "segmented snake" cube-packing
//! puzzle: a chain of unit cubes, split into straight segments of given
//! lengths, must fold via axis-aligned turns into a 4x4x4 cube so that every
//! cell is entered at most once and the path never leaves the cube.

pub mod enumerator;
pub mod geometry;
pub mod grid;
pub mod solver;
pub mod walk;
