//! A family of exact-match searches over ascending sequences, each generic over
//! the element type and over the integer type that carries positions.

pub mod alternative;
pub mod binary_search;
pub mod eytzinger;
pub mod helpers;
pub mod index;
pub mod power;
pub mod range;
pub mod traditional;
