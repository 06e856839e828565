use std::{cell::Cell, io, rc::Rc};
use system_usage_analyzer::application::monitor::{
    frame_of, tick_interval_ms, MonitorFrame, Sample, SnapshotRenderer, SystemMetricsProvider, SystemMonitor, View,
};
use system_usage_analyzer::domain::metrics::{MemoryMetrics, SystemSnapshot};
use system_usage_analyzer::domain::power::{PowerError, PowerRepository, PowerSnapshot};
use system_usage_analyzer::domain::process::{ProcessError, ProcessInfo, ProcessRepository, ProcessSort};

const SECOND: u64 = 1_000_000_000;

struct SystemFake {
    samples: Rc<Cell<usize>>,
    trees: Rc<Cell<usize>>,
}
impl SystemMetricsProvider for SystemFake {
    fn snapshot(&mut self, _: usize) -> SystemSnapshot {
        self.samples.set(self.samples.get() + 1);
        SystemSnapshot {
            application: None,
            cpus: vec![],
            memory: MemoryMetrics {
                used_bytes: 0,
                total_bytes: 0,
            },
            top_processes: vec![],
        }
    }
}
impl ProcessRepository for SystemFake {
    fn processes(&mut self) -> Result<Vec<ProcessInfo>, ProcessError> {
        self.trees.set(self.trees.get() + 1);
        Ok(vec![])
    }
}
struct PowerFake(Rc<Cell<usize>>);
impl PowerRepository for PowerFake {
    fn power(&mut self) -> Result<PowerSnapshot, PowerError> {
        self.0.set(self.0.get() + 1);
        Err(PowerError::DataUnavailable("temporary".into()))
    }
}
struct RendererFake {
    frames: Rc<Cell<usize>>,
    view: View,
}
impl SnapshotRenderer for RendererFake {
    fn render(&mut self, frame: MonitorFrame<'_>) -> io::Result<()> {
        assert!(matches!(
            (self.view, frame),
            (View::Dashboard, MonitorFrame::Dashboard { .. })
                | (View::Power, MonitorFrame::Power(_))
                | (View::Tree { .. }, MonitorFrame::Tree(_))
        ));
        self.frames.set(self.frames.get() + 1);
        Ok(())
    }
}
#[test]
fn modes_sample_only_needed_sources_and_power_errors_do_not_stop_rendering() {
    for (view, expected_system, expected_trees, expected_power) in [
        (View::Dashboard, 3, 0, 2),
        (View::Power, 0, 0, 2),
        (
            View::Tree {
                root: None,
                sort: ProcessSort::Pid,
            },
            0,
            3,
            0,
        ),
    ] {
        let samples = Rc::new(Cell::new(0));
        let trees = Rc::new(Cell::new(0));
        let power = Rc::new(Cell::new(0));
        let frames = Rc::new(Cell::new(0));
        let mut monitor = SystemMonitor::new(
            SystemFake {
                samples: samples.clone(),
                trees: trees.clone(),
            },
            PowerFake(power.clone()),
            RendererFake {
                frames: frames.clone(),
                view,
            },
            10,
            view,
        );
        let start = 100 * SECOND;
        for offset in [0, 1, 2] {
            monitor.tick(start + offset * SECOND).unwrap();
        }
        assert_eq!(samples.get(), expected_system);
        assert_eq!(trees.get(), expected_trees);
        assert_eq!(power.get(), expected_power);
        assert_eq!(frames.get(), 3);
    }
}

struct FailingRenderer;
impl SnapshotRenderer for FailingRenderer {
    fn render(&mut self, _: MonitorFrame<'_>) -> io::Result<()> {
        Err(io::Error::new(io::ErrorKind::BrokenPipe, "closed"))
    }
}
#[test]
fn output_errors_are_returned() {
    let mut monitor = SystemMonitor::new(
        SystemFake {
            samples: Rc::new(Cell::new(0)),
            trees: Rc::new(Cell::new(0)),
        },
        PowerFake(Rc::new(Cell::new(0))),
        FailingRenderer,
        10,
        View::Power,
    );
    let error = monitor.tick(0).unwrap_err();
    assert_eq!(error.kind(), io::ErrorKind::BrokenPipe);
}

#[test]
fn tick_interval_is_raised_to_each_view_floor() {
    assert_eq!(tick_interval_ms(View::Power, 500, 200), 2000);
    assert_eq!(tick_interval_ms(View::Power, 5000, 200), 5000);
    assert_eq!(tick_interval_ms(View::Dashboard, 100, 200), 200);
    assert_eq!(tick_interval_ms(View::Dashboard, 500, 200), 500);
    let tree = View::Tree { root: None, sort: ProcessSort::Pid };
    assert_eq!(tick_interval_ms(tree, 50, 200), 200);
    assert_eq!(tick_interval_ms(tree, 3000, 200), 3000);
}

#[test]
fn each_sample_is_shown_by_its_frame() {
    let power: Result<PowerSnapshot, PowerError> = Ok(PowerSnapshot::NoBattery);
    let system = Sample::System(SystemFake { samples: Rc::new(Cell::new(0)), trees: Rc::new(Cell::new(0)) }.snapshot(5));
    assert!(matches!(
        frame_of(&system, &power),
        MonitorFrame::Dashboard { power: Ok(PowerSnapshot::NoBattery), .. }
    ));
    let tree = Sample::Tree(Err(ProcessError::NotFound(7)));
    assert!(matches!(frame_of(&tree, &power), MonitorFrame::Tree(Err(ProcessError::NotFound(7)))));
    assert!(matches!(frame_of(&Sample::Battery, &power), MonitorFrame::Power(Ok(PowerSnapshot::NoBattery))));
}

#[test]
fn sampling_reads_only_the_sources_of_the_view() {
    for view in [View::Dashboard, View::Power, View::Tree { root: None, sort: ProcessSort::Pid }] {
        let samples = Rc::new(Cell::new(0));
        let trees = Rc::new(Cell::new(0));
        let power = Rc::new(Cell::new(0));
        let mut monitor = SystemMonitor::new(
            SystemFake { samples: samples.clone(), trees: trees.clone() },
            PowerFake(power.clone()),
            FailingRenderer,
            10,
            view,
        );
        let sample = monitor.sample(0);
        match view {
            View::Dashboard => assert!(matches!(sample, Sample::System(_))),
            View::Power => assert!(matches!(sample, Sample::Battery)),
            View::Tree { .. } => assert!(matches!(sample, Sample::Tree(Ok(_)))),
        }
        let expected = match view {
            View::Dashboard => (1, 0, 1),
            View::Power => (0, 0, 1),
            View::Tree { .. } => (0, 1, 0),
        };
        assert_eq!((samples.get(), trees.get(), power.get()), expected);
    }
}
