use std::path::PathBuf;
use vstd::prelude::*;

verus! {

/// A file-system path, carried through as the platform gave it.
#[verifier::external_type_specification]
#[verifier::external_body]
pub struct ExPathBuf(PathBuf);

/// The identifier the operating system gives a process.
#[derive(Debug, Clone, Copy, PartialEq, Eq, Structural, Hash, PartialOrd, Ord)]
pub struct ProcessId(pub u32);

#[derive(Debug, Clone, Copy, PartialEq, Eq, Structural)]
pub enum ProcessStatus {
    Running,
    Sleeping,
    Idle,
    Stopped,
    Zombie,
    Dead,
    Other,
}

/// One process of a snapshot.
///
/// The CPU usage is a 32-bit IEEE-754 float; it is held here by its bit
/// pattern (`f32::to_bits`), which orders processes exactly as
/// `f32::total_cmp` does on the float (see `cpu_order_key`).
#[derive(Debug)]
pub struct ProcessInfo {
    pub pid: ProcessId,
    pub parent_pid: Option<ProcessId>,
    pub name: String,
    pub executable: Option<PathBuf>,
    pub command: Option<String>,
    pub cpu_usage_bits: u32,
    pub memory_bytes: u64,
    pub status: ProcessStatus,
}

#[derive(Debug)]
pub struct ProcessNode {
    pub process: ProcessInfo,
    pub children: Vec<usize>,
    pub depth: usize,
}

/// An arena avoids recursive traversal and recursive destruction of deep trees.
#[derive(Debug)]
pub struct ProcessTree {
    pub nodes: Vec<ProcessNode>,
    pub roots: Vec<usize>,
}

impl Default for ProcessTree {
    /// The empty forest.
    fn default() -> (t: Self)
        ensures
            t.nodes@ == Seq::<ProcessNode>::empty(),
            t.roots@ == Seq::<usize>::empty(),
    {
        ProcessTree { nodes: Vec::new(), roots: Vec::new() }
    }
}

#[derive(Debug, Clone, Copy, PartialEq, Eq, Structural)]
pub enum ProcessSort {
    Pid,
    Cpu,
    Memory,
    Name,
}

impl Default for ProcessSort {
    /// PID order.
    fn default() -> (s: Self)
        ensures
            s == ProcessSort::Pid,
    {
        ProcessSort::Pid
    }
}

#[derive(Debug, Clone)]
pub enum ProcessError {
    DuplicatePid(u32),
    NotFound(u32),
    Unavailable(String),
}

/// A source of process snapshots, implemented by the platform adapter and by tests.
pub trait ProcessRepository {
    fn processes(&mut self) -> Result<Vec<ProcessInfo>, ProcessError>;
}

} // verus!
