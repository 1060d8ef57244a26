//! A cellular automaton engine on a finite square grid with configurable
//! birth/survival rules (a generalization of Conway's Game of Life).
//!
//! The grid is bounded: cells on an edge or in a corner simply have fewer
//! neighbors (clipped, not toroidal). Each cell carries its list of in-bounds
//! neighbor coordinates, computed once when the grid is allocated and carried
//! over unchanged from generation to generation.

pub mod game;
