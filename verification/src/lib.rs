//! Benchmark kernels with machine-checked contracts.
//!
//! Each module holds one kernel: its data, its setup, the work that a
//! benchmark host runs repeatedly, and the values it reports back.
pub mod argon2_hash;
pub mod compression;
pub mod hashmap;
pub mod json_parse;
pub mod lcg;
pub mod mandelbrot;
pub mod matrix_mul;
pub mod prime_sieve;
pub mod sort;
pub mod sort_dyn;
pub mod spectralnorm;
pub mod word_count;
