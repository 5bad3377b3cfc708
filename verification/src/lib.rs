//! In-memory algorithmic primitives: point-update/range-query trees,
//! union-find, sparse tables, graph utilities, modular arithmetic and
//! small numeric helpers, each with a verified contract.

pub mod bit_tree;
pub mod bits;
pub mod csr;
pub mod dsu;
pub mod fenwick;
pub mod gosper;
pub mod grid;
pub mod hashring;
pub mod hld;
pub mod laws;
pub mod matching;
pub mod matrix;
pub mod modnum;
pub mod monoid;
pub mod seg;
pub mod seg_lazy;
pub mod sieve;
pub mod sparse;
pub mod xrsr;
