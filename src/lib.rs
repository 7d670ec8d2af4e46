//! Xoofff: the Farfalle deck function instantiated with the Xoodoo[6]
//! permutation and its two rolling functions.

pub mod deck;
pub mod parallel;
pub mod rolling;
pub mod xoodoo;

pub use crate::deck::Xoofff;
