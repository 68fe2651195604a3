pub mod manifest;
pub mod compression;
pub mod hash;
pub mod memory;
pub mod ssd;
pub mod sort;
pub mod readme;
