//! Growth of connected random regions on a flat-top hexagonal grid.
//!
//! A cell is identified by the integer bucket of its center measured in
//! "units" of three quarters of the cell width and half the cell height, so
//! every computation on cells is exact. Geometry is expressed on the finer
//! lattice of quarter widths and half heights, on which every center and
//! every corner of a cell lies.
pub mod hex;
pub mod unit_block;
pub mod tree;
pub mod rand_tree;
