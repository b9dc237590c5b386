//! A grid solver in the Wave Function Collapse family: it fills a rectangular
//! grid with fields so that neighbouring cells satisfy a directional ruleset.
//!
//! A solve starts at one cell and spreads outwards, first in, first out. Each
//! cell is collapsed to a field drawn among those that the collapsed cells
//! around it allow, with a chance in proportion to the product of the weights
//! that they give it. The solver never takes a collapse back: a cell that is
//! left without a candidate ends the solve with an error.
//!
//! Weights are whole numbers of an arbitrary unit. Every candidate of a cell
//! gathers one weight from each collapsed cell around it, so only the ratios
//! of the weights of a ruleset influence a draw: weights given as decimal
//! fractions are brought to units by multiplying all of them by one factor.

pub mod candidates;
pub mod display;
pub mod matrix;
pub mod propagation;
pub mod rules;
pub mod shared;
pub mod vec2i;
pub mod wfc;
