pub mod metrics;
pub mod power;
pub mod process;
