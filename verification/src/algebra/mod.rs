//! The mathematics that the contracts are stated in: residues, sums, products
//! and powers, polynomials and discrete Fourier transforms, and that the order is prime.
pub mod dft;
pub mod fractions;
pub mod lagrange;
pub mod poly;
pub mod primality;
pub mod prime;
pub mod residue;
pub mod roots;
pub mod sums;
