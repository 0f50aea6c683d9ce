//! A verified sequence-alignment engine: affine-gap pairwise alignment (global, local and
//! semi-global, full or banded), progressive multiple alignment, partial-order alignment
//! graphs, and the CIGAR codec.

use vstd::prelude::*;

pub mod api;
pub mod banded;
pub mod cigar;
pub mod error;
pub mod msa;
pub mod pairwise;
pub mod poa;
pub mod records;
pub mod scoring;
pub mod text;

pub use error::AlignError;

verus! {

} // verus!
