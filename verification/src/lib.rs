//! Batch threshold encryption over BLS12-381.
//!
//! Five schemes share their algebra. `btx` decrypts an ordered batch with one point per
//! server; `pfe` does so by partial fractions; `weighted_btx_swapped` spreads the shares over
//! parties by weight; `weighted_indexed_bte` lets a ciphertext choose its index;
//! `simple_bte` stands on the arkworks crates and adds a transform whose decryptions can be
//! checked without pairings. Contracts read a scalar as a residue and a group element as its
//! discrete logarithm, so that what a scheme promises is a statement about residues. Each
//! scheme's `laws` state what its phases promise together.
pub mod algebra;
pub mod btx;
pub mod bytes;
pub mod curve;
pub mod encoding;
pub mod fft;
pub mod hash;
pub mod interpolation;
pub mod middle;
pub mod naf;
pub mod numbers;
pub mod pfe;
pub mod points;
pub mod polynomial;
pub mod sampling;
pub mod simple_bte;
pub mod slots;
pub mod small;
pub mod text;
pub mod weighted;
pub mod weighted_btx;
pub mod weighted_btx_swapped;
pub mod weighted_indexed_bte;
