pub mod forest;
pub mod monitor;
pub mod power;
pub mod process;
pub mod sort_order;
pub mod input_order;
