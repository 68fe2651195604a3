pub mod latency;
pub mod daily;
pub mod cpu;
pub mod readme;
