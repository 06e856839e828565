//! One tick of the monitor: sample what the active view needs, then render it.
use crate::application::power::GetPowerMetrics;
use crate::application::process::{snapshot_outcome, GetProcessTree};
use crate::domain::metrics::SystemSnapshot;
use crate::domain::power::{PowerError, PowerRepository, PowerSnapshot};
use crate::domain::process::{ProcessError, ProcessId, ProcessInfo, ProcessRepository, ProcessSort, ProcessTree};
use vstd::prelude::*;

verus! {

/// An I/O error of the renderer's output.
#[verifier::external_type_specification]
#[verifier::external_body]
pub struct ExIoError(std::io::Error);

/// The view the monitor renders on every tick.
#[derive(Debug, Clone, Copy, PartialEq, Eq, Structural)]
pub enum View {
    Dashboard,
    Tree { root: Option<ProcessId>, sort: ProcessSort },
    Power,
}

/// The floor of the power view's pause between ticks, in milliseconds: the
/// battery is not polled more often.
pub const POWER_TICK_MS: u64 = 2000;

/// The pause between ticks, in milliseconds: the requested interval, raised
/// to 2 s for the power view and to the minimum CPU update interval
/// (`cpu_minimum_ms`) for the views that sample processes.
pub fn tick_interval_ms(view: View, requested_ms: u64, cpu_minimum_ms: u64) -> (r: u64)
    ensures
        r == match view {
            View::Power => if requested_ms < POWER_TICK_MS {
                POWER_TICK_MS
            } else {
                requested_ms
            },
            _ => if requested_ms < cpu_minimum_ms {
                cpu_minimum_ms
            } else {
                requested_ms
            },
        },
{
    let floor = match view {
        View::Power => POWER_TICK_MS,
        _ => cpu_minimum_ms,
    };
    if requested_ms < floor {
        floor
    } else {
        requested_ms
    }
}

/// A source of whole-system samples.
pub trait SystemMetricsProvider {
    fn snapshot(&mut self, process_limit: usize) -> SystemSnapshot;
}

/// What one tick renders.
pub enum MonitorFrame<'a> {
    Dashboard { system: &'a SystemSnapshot, power: &'a Result<PowerSnapshot, PowerError> },
    Tree(&'a Result<ProcessTree, ProcessError>),
    Power(&'a Result<PowerSnapshot, PowerError>),
}

/// What one tick sampled for its view.
pub enum Sample {
    /// A system sample, shown beside the battery result.
    System(SystemSnapshot),
    /// The process forest, or why it could not be built.
    Tree(Result<ProcessTree, ProcessError>),
    /// Nothing beyond the battery result.
    Battery,
}

/// The frame that shows a sample: the dashboard holds the system sample and
/// the battery result, the tree view the forest, the power view the battery
/// result.
pub open spec fn frame_spec<'a>(sample: &'a Sample, power: &'a Result<PowerSnapshot, PowerError>) -> MonitorFrame<'a> {
    match sample {
        Sample::System(system) => MonitorFrame::Dashboard { system, power },
        Sample::Tree(tree) => MonitorFrame::Tree(tree),
        Sample::Battery => MonitorFrame::Power(power),
    }
}

pub fn frame_of<'a>(sample: &'a Sample, power: &'a Result<PowerSnapshot, PowerError>) -> (f: MonitorFrame<'a>)
    ensures
        f == frame_spec(sample, power),
{
    match sample {
        Sample::System(system) => MonitorFrame::Dashboard { system, power },
        Sample::Tree(tree) => MonitorFrame::Tree(tree),
        Sample::Battery => MonitorFrame::Power(power),
    }
}

/// Writes frames to an output.
pub trait SnapshotRenderer {
    fn render(&mut self, frame: MonitorFrame<'_>) -> std::io::Result<()>;
}

pub struct SystemMonitor<P, B, R> {
    provider: P,
    power: GetPowerMetrics<B>,
    renderer: R,
    process_limit: usize,
    view: View,
}

impl<P: SystemMetricsProvider + ProcessRepository, B: PowerRepository, R: SnapshotRenderer> SystemMonitor<
    P,
    B,
    R,
> {
    pub closed spec fn active_view(&self) -> View {
        self.view
    }

    pub closed spec fn process_limit(&self) -> usize {
        self.process_limit
    }

    /// The battery cache of the monitor.
    pub closed spec fn power_cache(&self) -> GetPowerMetrics<B> {
        self.power
    }

    pub fn new(provider: P, power: B, renderer: R, process_limit: usize, view: View) -> (s: Self)
        ensures
            s.active_view() == view,
            s.process_limit() == process_limit,
            s.power_cache().last_sample() is None,
    {
        SystemMonitor { provider, power: GetPowerMetrics::new(power), renderer, process_limit, view }
    }

    /// Samples only what the view shows: the dashboard polls the battery
    /// when due, then takes a system sample of `process_limit` top processes;
    /// the tree view builds the forest from a process snapshot and leaves the
    /// battery alone; the power view polls the battery when due and nothing
    /// else.
    pub fn sample(&mut self, now: u64) -> (s: Sample)
        ensures
            final(self).active_view() == old(self).active_view(),
            final(self).process_limit() == old(self).process_limit(),
            match old(self).active_view() {
                View::Dashboard => s is System,
                View::Tree { root, sort } => s matches Sample::Tree(t) && exists|snapshot: Result<
                    Seq<ProcessInfo>,
                    ProcessError,
                >| snapshot_outcome(t, snapshot, root, sort),
                View::Power => s is Battery,
            },
            match old(self).active_view() {
                View::Tree { .. } => final(self).power_cache() == old(self).power_cache(),
                _ => {
                    &&& crate::application::power::poll_due(old(self).power_cache().last_sample(), now)
                        ==> final(self).power_cache().last_sample() == Some(now)
                    &&& !crate::application::power::poll_due(old(self).power_cache().last_sample(), now)
                        ==> final(self).power_cache() == old(self).power_cache()
                },
            },
    {
        match self.view {
            View::Dashboard => {
                self.power.execute(now);
                Sample::System(self.provider.snapshot(self.process_limit))
            },
            View::Tree { root, sort } => Sample::Tree(GetProcessTree::execute(&mut self.provider, root, sort)),
            View::Power => {
                self.power.execute(now);
                Sample::Battery
            },
        }
    }

    /// One tick: samples what the view shows (see `sample`) and renders the
    /// frame of that sample with the kept battery result (see `frame_of`).
    /// Battery errors are rendered, not returned; only an output error is.
    pub fn tick(&mut self, now: u64) -> (r: std::io::Result<()>)
        ensures
            final(self).active_view() == old(self).active_view(),
            final(self).process_limit() == old(self).process_limit(),
            match old(self).active_view() {
                View::Tree { .. } => final(self).power_cache() == old(self).power_cache(),
                _ => {
                    &&& crate::application::power::poll_due(old(self).power_cache().last_sample(), now)
                        ==> final(self).power_cache().last_sample() == Some(now)
                    &&& !crate::application::power::poll_due(old(self).power_cache().last_sample(), now)
                        ==> final(self).power_cache() == old(self).power_cache()
                },
            },
    {
        let sample = self.sample(now);
        let frame = frame_of(&sample, self.power.kept());
        self.renderer.render(frame)
    }
}

} // verus!
