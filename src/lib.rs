//! Builds an elastic-degenerate string (EDS) from a reference sequence and a
//! catalogue of variants: an index of allele sets keyed by coordinate, and an
//! emitter that interleaves reference runs with `{a,b,c}` letters.

pub mod alleles;
pub mod types;
pub mod index;
pub mod eds;
pub mod config;
