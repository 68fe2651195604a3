pub mod text;
pub mod benchmarks;
pub mod cli;
