use resource_monitor::analyzer::{analyze_snapshot, AnalyzerState, SpikeState};
use resource_monitor::config::Thresholds;
use resource_monitor::metrics::{ProcessSample, SystemSnapshot};

fn snap(t: u64, cpu: u64) -> SystemSnapshot {
    SystemSnapshot {
        timestamp: t,
        cpu_usage_percent: cpu,
        ram_usage_percent: 0,
        io_read_bytes_per_s: 0,
        io_write_bytes_per_s: 0,
        top_processes: Vec::new(),
    }
}

fn snap_with_top(t: u64, cpu: u64, top: Vec<ProcessSample>) -> SystemSnapshot {
    SystemSnapshot {
        timestamp: t,
        cpu_usage_percent: cpu,
        ram_usage_percent: 0,
        io_read_bytes_per_s: 0,
        io_write_bytes_per_s: 0,
        top_processes: top,
    }
}

fn cpu_only(threshold: u64) -> Thresholds {
    Thresholds::new(Some(threshold), None, None)
}

#[test]
fn cpu_excursion_yields_one_event() {
    // Threshold 80%, minimum spike duration 3 s, cpu values 60, 85, 90, 88, 70
    // at t = 0..4: exactly one event, start 1, end 4, peak 90, threshold 80.
    let thresholds = cpu_only(800_000);
    let mut state = AnalyzerState::new();
    let values = [600_000u64, 850_000, 900_000, 880_000, 700_000];
    let mut events = Vec::new();
    for (t, v) in values.iter().enumerate() {
        let evs = analyze_snapshot(&snap(t as u64, *v), &thresholds, 3, &mut state);
        events.extend(evs);
    }
    assert_eq!(events.len(), 1);
    let ev = &events[0];
    assert_eq!(ev.timestamp_start, 1);
    assert_eq!(ev.timestamp_end, 4);
    assert_eq!(ev.peak_value, 900_000);
    assert_eq!(ev.threshold, 800_000);
    assert!(ev.top_processes.is_empty());
    assert!(matches!(state.cpu, SpikeState::Idle));
}

#[test]
fn short_excursion_suppressed() {
    // cpu values 60, 85, 70 at t = 0..2: the spike lasts 1 s, below the 3 s
    // minimum, so no event is emitted and the state returns to idle.
    let thresholds = cpu_only(800_000);
    let mut state = AnalyzerState::new();
    let mut events = Vec::new();
    for (t, v) in [600_000u64, 850_000, 700_000].iter().enumerate() {
        let evs = analyze_snapshot(&snap(t as u64, *v), &thresholds, 3, &mut state);
        events.extend(evs);
    }
    assert_eq!(events.len(), 0);
    assert!(matches!(state.cpu, SpikeState::Idle));
}

#[test]
fn disabling_threshold_discards_open_spike() {
    let mut state = AnalyzerState::new();
    let with_cpu = cpu_only(800_000);
    let evs = analyze_snapshot(&snap(0, 900_000), &with_cpu, 0, &mut state);
    assert!(evs.is_empty());
    assert!(matches!(state.cpu, SpikeState::Spiking { .. }));

    // The threshold is unconfigured on the next tick: the open spike is
    // dropped silently even though its duration already passed the minimum.
    let disabled = Thresholds::new(None, None, None);
    let evs = analyze_snapshot(&snap(10, 900_000), &disabled, 0, &mut state);
    assert!(evs.is_empty());
    assert!(matches!(state.cpu, SpikeState::Idle));

    // And the following excursion is tracked afresh.
    let evs = analyze_snapshot(&snap(20, 700_000), &with_cpu, 0, &mut state);
    assert!(evs.is_empty());
    assert!(matches!(state.cpu, SpikeState::Idle));
}

#[test]
fn value_at_threshold_extends_spike() {
    // Entry uses >=, exit uses <: a value exactly at the threshold never ends
    // a spike.
    let thresholds = cpu_only(800_000);
    let mut state = AnalyzerState::new();
    let mut events = Vec::new();
    for (t, v) in [800_000u64, 800_000, 800_000, 799_999].iter().enumerate() {
        let evs = analyze_snapshot(&snap(t as u64, *v), &thresholds, 3, &mut state);
        events.extend(evs);
    }
    assert_eq!(events.len(), 1);
    assert_eq!(events[0].timestamp_start, 0);
    assert_eq!(events[0].timestamp_end, 3);
    assert_eq!(events[0].peak_value, 800_000);
}

#[test]
fn tie_does_not_replace_peak_snapshot() {
    // Two samples share the peak value: the first one's snapshot is kept, so
    // the event reports the first sample's top processes.
    let thresholds = cpu_only(800_000);
    let mut state = AnalyzerState::new();
    let first = vec![ProcessSample { pid: 1, name: b"first".to_vec(), cpu_percent: 900_000, ram_bytes: 10 }];
    let second = vec![ProcessSample { pid: 2, name: b"second".to_vec(), cpu_percent: 900_000, ram_bytes: 20 }];
    let mut events = Vec::new();
    events.extend(analyze_snapshot(&snap_with_top(0, 900_000, first), &thresholds, 1, &mut state));
    events.extend(analyze_snapshot(&snap_with_top(1, 900_000, second), &thresholds, 1, &mut state));
    events.extend(analyze_snapshot(&snap(2, 100_000), &thresholds, 1, &mut state));
    assert_eq!(events.len(), 1);
    assert_eq!(events[0].peak_value, 900_000);
    assert_eq!(events[0].top_processes.len(), 1);
    assert_eq!(events[0].top_processes[0].pid, 1);
    assert_eq!(events[0].top_processes[0].name, b"first".to_vec());
}

#[test]
fn higher_value_updates_peak_snapshot() {
    let thresholds = cpu_only(800_000);
    let mut state = AnalyzerState::new();
    let first = vec![ProcessSample { pid: 1, name: b"first".to_vec(), cpu_percent: 850_000, ram_bytes: 10 }];
    let second = vec![ProcessSample { pid: 2, name: b"second".to_vec(), cpu_percent: 950_000, ram_bytes: 20 }];
    let mut events = Vec::new();
    events.extend(analyze_snapshot(&snap_with_top(0, 850_000, first), &thresholds, 1, &mut state));
    events.extend(analyze_snapshot(&snap_with_top(1, 950_000, second), &thresholds, 1, &mut state));
    events.extend(analyze_snapshot(&snap(2, 100_000), &thresholds, 1, &mut state));
    assert_eq!(events.len(), 1);
    assert_eq!(events[0].peak_value, 950_000);
    assert_eq!(events[0].top_processes[0].pid, 2);
}

#[test]
fn duration_exactly_at_minimum_reports() {
    let thresholds = cpu_only(800_000);
    let mut state = AnalyzerState::new();
    let mut events = Vec::new();
    for (t, v) in [850_000u64, 850_000, 850_000, 700_000].iter().enumerate() {
        let evs = analyze_snapshot(&snap(t as u64, *v), &thresholds, 3, &mut state);
        events.extend(evs);
    }
    // Entered at t=0, closed at t=3: duration 3 s == minimum, so it reports.
    assert_eq!(events.len(), 1);
    assert_eq!(events[0].timestamp_start, 0);
    assert_eq!(events[0].timestamp_end, 3);
}

#[test]
fn backward_clock_clamps_duration_to_zero() {
    let thresholds = cpu_only(800_000);
    let mut state = AnalyzerState::new();
    let mut events = Vec::new();
    // The closing snapshot's timestamp lies before the spike start.
    events.extend(analyze_snapshot(&snap(100, 900_000), &thresholds, 1, &mut state));
    events.extend(analyze_snapshot(&snap(50, 100_000), &thresholds, 1, &mut state));
    // Duration clamps to zero, which is below the 1 s minimum: no event.
    assert_eq!(events.len(), 0);
    assert!(matches!(state.cpu, SpikeState::Idle));
}

#[test]
fn io_value_derived_from_byte_rates() {
    // 250 MB/s of reads plus 250 MB/s of writes crosses a 400 MB/s threshold.
    let thresholds = Thresholds::new(None, None, Some(4_000_000));
    let mut state = AnalyzerState::new();
    let mut make = |t: u64, read: u64, write: u64| SystemSnapshot {
        timestamp: t,
        cpu_usage_percent: 0,
        ram_usage_percent: 0,
        io_read_bytes_per_s: read,
        io_write_bytes_per_s: write,
        top_processes: Vec::new(),
    };
    let mut events = Vec::new();
    events.extend(analyze_snapshot(&make(0, 250_000_000, 250_000_000), &thresholds, 1, &mut state));
    events.extend(analyze_snapshot(&make(1, 0, 0), &thresholds, 1, &mut state));
    assert_eq!(events.len(), 1);
    // (250e6 + 250e6) bytes/s is 500 MB/s, fixed-point 5_000_000.
    assert_eq!(events[0].peak_value, 5_000_000);
    assert_eq!(events[0].resource, resource_monitor::config::ResourceKind::Io);
}

#[test]
fn resources_tracked_independently() {
    let thresholds = Thresholds::new(Some(800_000), Some(500_000), None);
    let mut state = AnalyzerState::new();
    let mut make = |t: u64, cpu: u64, ram: u64| SystemSnapshot {
        timestamp: t,
        cpu_usage_percent: cpu,
        ram_usage_percent: ram,
        io_read_bytes_per_s: 0,
        io_write_bytes_per_s: 0,
        top_processes: Vec::new(),
    };
    let mut events = Vec::new();
    events.extend(analyze_snapshot(&make(0, 900_000, 600_000), &thresholds, 1, &mut state));
    events.extend(analyze_snapshot(&make(1, 900_000, 100_000), &thresholds, 1, &mut state));
    events.extend(analyze_snapshot(&make(2, 100_000, 100_000), &thresholds, 1, &mut state));
    // The RAM spike closes at t=1; the CPU spike closes at t=2.
    assert_eq!(events.len(), 2);
    assert_eq!(events[0].resource, resource_monitor::config::ResourceKind::Ram);
    assert_eq!(events[0].timestamp_end, 1);
    assert_eq!(events[1].resource, resource_monitor::config::ResourceKind::Cpu);
    assert_eq!(events[1].timestamp_end, 2);
}
