pub mod battery;
pub mod iokit;
pub mod power_provider;
pub mod power_values;
pub mod terminal;
pub mod top_processes;
pub mod tree_layout;
