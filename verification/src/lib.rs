//! A library for generating and navigating rectangular mazes.
//!
//! A maze is carved out of a `width x height` grid by removing walls between
//! adjacent cells until the entrance and the exit (and, on the hard setting,
//! every pair of cells) are connected.  A disjoint-set structure tracks
//! connectivity while carving; a joystick walks a finished maze and records
//! the path taken; a small geometry layer maps grid positions to drawing
//! coordinates for a renderer.

pub mod disjset;
pub mod maze;
pub mod carve;
pub mod game;
pub mod ui;

