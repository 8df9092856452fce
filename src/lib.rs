//! Verified linear layers for the KoalaBear field: the Poseidon2 diffusion
//! layers and a Reed-Solomon based MDS permutation.
pub mod field;
pub mod poseidon2;
pub mod coset_mds;
