//! A dense, bounds-checked two-dimensional grid together with a set of
//! small puzzle solvers built on plain values.
//!
//! The central type is [`array2d::Array2d`], a fixed-size row-major grid
//! with safe-default reads, silent out-of-bounds writes, strict checked
//! accessors, coordinate iteration and string rendering.

pub mod array2d;
pub mod boxes;
pub mod guards;
pub mod ids;
pub mod marbles;
pub mod polymer;
pub mod power;
pub mod recipes;
pub mod steps;
mod text;
pub mod tree;
