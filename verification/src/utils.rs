//! Random noise, matrix transposition and cache-size discovery.

pub mod cache;
pub mod noise;
pub mod transpose;

pub use cache::get_cache_size;
pub use noise::Noise;
pub use transpose::mat_transpose;
