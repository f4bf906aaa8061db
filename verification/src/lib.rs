//! K-means clustering of three-dimensional points in fixed-point arithmetic.
//!
//! Every number is a signed count of millionths held in an `i64`, so all
//! distances, means and convergence tests are exact integer computations
//! whose results are stated in the contracts of the functions below. A
//! value beyond a million millions stands for what is not a number, and
//! clustering goes on in its presence.
//!
//! Three modules call outside crates and are believed, not proved:
//! [`matrix`] (the table, held by `ndarray`), [`random`] (the generator of
//! `rand`) and [`reader`] (the splitting of text into fields by `csv`).

pub mod fixed;
pub mod geometry;
pub mod assign;
pub mod update;
pub mod random;
pub mod cluster;
pub mod laws;
pub mod matrix;
pub mod dataset;
pub mod decimal;
pub mod reader;
pub mod tsv;
pub mod output;
