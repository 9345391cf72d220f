pub mod acceptance;
pub mod accumulator;
pub mod algebra;
pub mod bls12_381;
pub mod bls12_381_reader;
pub mod bn254;
pub mod bn254_reader;
pub mod canonical;
pub mod ceremony_files;
pub mod circuit;
pub mod context;
pub mod curve;
pub mod descriptions;
pub mod error;
pub mod formats;
pub mod hasher;
pub mod key;
pub mod keypair;
pub mod laws;
pub mod math;
pub mod powers;
pub mod ptau;
pub mod qap;
pub mod radix;
pub mod ratio;
pub mod reader;
pub mod rng;
pub mod text;
pub mod transcript;
pub mod transform;
pub mod utils;
pub mod writing;
