//! A sample of the whole system for the dashboard. Usages are held as the
//! bit patterns of the `f32` percentages the platform reports, memory as
//! bytes; they are turned into floating-point figures where displayed.
use vstd::prelude::*;

verus! {

#[derive(Debug, Clone)]
pub struct ProcessMetrics {
    pub pid: u32,
    pub name: String,
    pub cpu_usage_bits: u32,
    pub memory_bytes: u64,
}

#[derive(Debug, Clone)]
pub struct CpuMetrics {
    pub name: String,
    pub usage_bits: u32,
}

#[derive(Debug, Clone, Copy)]
pub struct MemoryMetrics {
    pub used_bytes: u64,
    pub total_bytes: u64,
}

#[derive(Debug, Clone)]
pub struct SystemSnapshot {
    pub application: Option<ProcessMetrics>,
    pub cpus: Vec<CpuMetrics>,
    pub memory: MemoryMetrics,
    pub top_processes: Vec<ProcessMetrics>,
}

} // verus!
