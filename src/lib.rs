//! Wheel-factorisation kernel for a segmented sieve of Eratosthenes.
//!
//! Integers coprime to 210 are numbered densely (`wheel210::bit_index`,
//! `wheel210::from_bit_index`), and for each sieving prime a cursor walks
//! the byte-packed sieve, where every byte covers 30 consecutive integers,
//! clearing in turn the bit of each multiple of the prime whose cofactor is
//! representable.

pub mod residues;
pub mod tables;
pub mod wheel;
pub mod wheel210;
