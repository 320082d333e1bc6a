//! Rooted unordered trees and their shapes: canonical ordering, isomorphism,
//! folds, balance and symmetry statistics, and the enumeration of all shapes
//! with a given number of leaves.

pub mod phylo;
pub mod util;
pub mod order;
pub mod shape;
pub mod balance;
pub mod quartet;
pub mod generator;
