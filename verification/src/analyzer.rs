//! The spike-detection state machine: one independent two-state machine per
//! monitored resource, stepped once per snapshot.
//!
//! Entry uses `value >= threshold`, exit uses `value < threshold`, so a value
//! exactly at the threshold starts or extends a spike and never ends one.
//! A closing spike yields an event only if its duration in whole seconds
//! reaches the configured minimum; the state resets either way. Disabling a
//! threshold forces the state to `Idle` and discards any open spike.

use vstd::prelude::*;

use crate::config::{ResourceKind, Thresholds};
use crate::metrics::{ProcessSample, ProcessSampleView, SystemSnapshot, SystemSnapshotView};

verus! {

/// The closed, reportable record of a spike that met the minimum-duration
/// filter. Timestamps are seconds since the Unix epoch; `peak_value` and
/// `threshold` are fixed-point (scaled by `VALUE_SCALE`).
#[derive(Debug)]
pub struct SpikeEvent {
    pub resource: ResourceKind,
    pub timestamp_start: u64,
    pub timestamp_end: u64,
    pub peak_value: u64,
    pub threshold: u64,
    pub top_processes: Vec<ProcessSample>,
}

/// Mathematical model of a `SpikeEvent`.
#[verifier::ext_equal]
pub ghost struct SpikeEventView {
    pub resource: ResourceKind,
    pub timestamp_start: u64,
    pub timestamp_end: u64,
    pub peak_value: u64,
    pub threshold: u64,
    pub top_processes: Seq<ProcessSampleView>,
}

impl View for SpikeEvent {
    type V = SpikeEventView;

    open spec fn view(&self) -> SpikeEventView {
        SpikeEventView {
            resource: self.resource,
            timestamp_start: self.timestamp_start,
            timestamp_end: self.timestamp_end,
            peak_value: self.peak_value,
            threshold: self.threshold,
            top_processes: Seq::new(
                self.top_processes@.len(),
                |i: int| self.top_processes@[i]@,
            ),
        }
    }
}

/// Per-resource detector state. The tagged form makes "a spike is open if and
/// only if a start timestamp is recorded" hold structurally: a `Spiking` state
/// always carries its start, its running peak and the snapshot at the peak.
#[derive(Debug)]
pub enum SpikeState {
    Idle,
    Spiking { start: u64, peak: u64, peak_snapshot: SystemSnapshot },
}

/// Mathematical model of a `SpikeState`.
#[verifier::ext_equal]
pub ghost enum SpikeStateView {
    Idle,
    Spiking { start: u64, peak: u64, peak_snapshot: SystemSnapshotView },
}

impl View for SpikeState {
    type V = SpikeStateView;

    open spec fn view(&self) -> SpikeStateView {
        match self {
            SpikeState::Idle => SpikeStateView::Idle,
            SpikeState::Spiking { start, peak, peak_snapshot } => SpikeStateView::Spiking {
                start: *start,
                peak: *peak,
                peak_snapshot: peak_snapshot@,
            },
        }
    }
}

impl SpikeState {
    /// Initial state: no spike open.
    pub fn new() -> (r: SpikeState)
        ensures
            r@ == SpikeStateView::Idle,
    {
        SpikeState::Idle
    }

    /// Drop any open spike and return to `Idle`.
    pub fn reset(&mut self)
        ensures
            final(self)@ == SpikeStateView::Idle,
    {
        *self = SpikeState::Idle;
    }

    /// Whether a spike is currently open.
    pub fn in_spike(&self) -> (r: bool)
        ensures
            r == (self@ is Spiking),
    {
        match self {
            SpikeState::Idle => false,
            SpikeState::Spiking { .. } => true,
        }
    }
}

/// Detector state for all three resources. The machines share nothing, so the
/// order they are stepped in cannot matter.
#[derive(Debug)]
pub struct AnalyzerState {
    pub cpu: SpikeState,
    pub ram: SpikeState,
    pub io: SpikeState,
}

/// Mathematical model of an `AnalyzerState`.
#[verifier::ext_equal]
pub ghost struct AnalyzerStateView {
    pub cpu: SpikeStateView,
    pub ram: SpikeStateView,
    pub io: SpikeStateView,
}

impl View for AnalyzerState {
    type V = AnalyzerStateView;

    open spec fn view(&self) -> AnalyzerStateView {
        AnalyzerStateView { cpu: self.cpu@, ram: self.ram@, io: self.io@ }
    }
}

impl AnalyzerState {
    /// Every resource starts `Idle`.
    pub fn new() -> (r: AnalyzerState)
        ensures
            r@.cpu == SpikeStateView::Idle,
            r@.ram == SpikeStateView::Idle,
            r@.io == SpikeStateView::Idle,
    {
        AnalyzerState { cpu: SpikeState::new(), ram: SpikeState::new(), io: SpikeState::new() }
    }
}

/// Elapsed whole seconds from `start` to `end`, clamped to zero when the
/// clock moved backward.
pub open spec fn spec_duration_secs(start: u64, end: u64) -> u64 {
    if end >= start {
        (end - start) as u64
    } else {
        0
    }
}

/// One step of the per-resource state machine: the next state and the event
/// (if any) for a sampled `value` against `threshold`, taken from state `st`
/// at snapshot `snap`.
pub open spec fn spike_step(
    resource: ResourceKind,
    st: SpikeStateView,
    value: u64,
    threshold: Option<u64>,
    snap: SystemSnapshotView,
    min_spike_duration_secs: u64,
) -> (SpikeStateView, Option<SpikeEventView>) {
    match threshold {
        Option::None => (SpikeStateView::Idle, Option::None),
        Option::Some(th) => match st {
            SpikeStateView::Idle => if value >= th {
                (
                    SpikeStateView::Spiking { start: snap.timestamp, peak: value, peak_snapshot: snap },
                    Option::None,
                )
            } else {
                (SpikeStateView::Idle, Option::None)
            },
            SpikeStateView::Spiking { start, peak, peak_snapshot } => if value >= th {
                if value > peak {
                    (
                        SpikeStateView::Spiking { start, peak: value, peak_snapshot: snap },
                        Option::None,
                    )
                } else {
                    (SpikeStateView::Spiking { start, peak, peak_snapshot }, Option::None)
                }
            } else {
                if spec_duration_secs(start, snap.timestamp) >= min_spike_duration_secs {
                    (
                        SpikeStateView::Idle,
                        Option::Some(
                            SpikeEventView {
                                resource,
                                timestamp_start: start,
                                timestamp_end: snap.timestamp,
                                peak_value: peak,
                                threshold: th,
                                top_processes: peak_snapshot.top_processes,
                            },
                        ),
                    )
                } else {
                    (SpikeStateView::Idle, Option::None)
                }
            },
        },
    }
}

/// The model of an optional event.
pub open spec fn view_of_event(ev: Option<SpikeEvent>) -> Option<SpikeEventView> {
    match ev {
        Option::Some(e) => Option::Some(e@),
        Option::None => Option::None,
    }
}

/// Step one resource's state machine for one snapshot, with the resource's
/// threshold configured to `threshold`. The new state and the returned event
/// are exactly what `spike_step` says.
pub fn update_spike_for_resource(
    resource: ResourceKind,
    value: u64,
    threshold: u64,
    snapshot: &SystemSnapshot,
    min_spike_duration_secs: u64,
    state: &mut SpikeState,
) -> (ev: Option<SpikeEvent>)
    ensures
        ({
            let (st2, ev2) = spike_step(
                resource,
                old(state)@,
                value,
                Option::Some(threshold),
                snapshot@,
                min_spike_duration_secs,
            );
            final(state)@ == st2 && view_of_event(ev) == ev2
        }),
{
    let now = snapshot.timestamp;
    let mut taken = SpikeState::Idle;
    core::mem::swap(state, &mut taken);
    match taken {
        SpikeState::Idle => {
            if value >= threshold {
                *state = SpikeState::Spiking {
                    start: now,
                    peak: value,
                    peak_snapshot: snapshot.duplicate(),
                };
            }
            None
        },
        SpikeState::Spiking { start, peak, peak_snapshot } => {
            if value >= threshold {
                if value > peak {
                    *state = SpikeState::Spiking {
                        start,
                        peak: value,
                        peak_snapshot: snapshot.duplicate(),
                    };
                } else {
                    *state = SpikeState::Spiking { start, peak, peak_snapshot };
                }
                None
            } else {
                let duration = if now >= start {
                    now - start
                } else {
                    0
                };
                if duration >= min_spike_duration_secs {
                    let ev = SpikeEvent {
                        resource,
                        timestamp_start: start,
                        timestamp_end: now,
                        peak_value: peak,
                        threshold,
                        top_processes: peak_snapshot.top_processes,
                    };
                    proof {
                        let (st2, ev2) = spike_step(
                            resource,
                            old(state)@,
                            value,
                            Option::Some(threshold),
                            snapshot@,
                            min_spike_duration_secs,
                        );
                        assert(ev@ =~= ev2->0);
                    }
                    Some(ev)
                } else {
                    None
                }
            }
        },
    }
}

/// The fixed-point I/O value of a snapshot: total bytes per second expressed
/// as megabytes per second, scaled by `VALUE_SCALE` (so: total divided by 100).
pub open spec fn spec_io_value(snap: SystemSnapshotView) -> u64 {
    (((snap.io_read_bytes_per_s + snap.io_write_bytes_per_s) as int) / 100) as u64
}

/// Compute the fixed-point I/O value of a snapshot.
pub fn io_value(snapshot: &SystemSnapshot) -> (r: u64)
    ensures
        r == spec_io_value(snapshot@),
{
    let total: u128 = snapshot.io_read_bytes_per_s as u128 + snapshot.io_write_bytes_per_s as u128;
    let scaled: u128 = total / 100;
    proof {
        assert(scaled <= u64::MAX) by {
            assert(total <= 2 * (u64::MAX as u128));
        }
    }
    scaled as u64
}

/// The events of one tick, in evaluation order (cpu, ram, io).
pub open spec fn events_of(
    e1: Option<SpikeEventView>,
    e2: Option<SpikeEventView>,
    e3: Option<SpikeEventView>,
) -> Seq<SpikeEventView> {
    opt_seq(e1) + opt_seq(e2) + opt_seq(e3)
}

/// A sequence with zero or one element.
pub open spec fn opt_seq(e: Option<SpikeEventView>) -> Seq<SpikeEventView> {
    match e {
        Option::Some(ev) => seq![ev],
        Option::None => Seq::empty(),
    }
}

/// The full result of analyzing one snapshot: the next analyzer state and the
/// events closed on this tick. A resource whose threshold is unconfigured is
/// forced to `Idle` with no event.
pub open spec fn spec_analyze_snapshot(
    snap: SystemSnapshotView,
    thresholds: Thresholds,
    min_spike_duration_secs: u64,
    st: AnalyzerStateView,
) -> (AnalyzerStateView, Seq<SpikeEventView>) {
    let (cpu2, e1) = spike_step(
        ResourceKind::Cpu,
        st.cpu,
        snap.cpu_usage_percent,
        thresholds.cpu_threshold,
        snap,
        min_spike_duration_secs,
    );
    let (ram2, e2) = spike_step(
        ResourceKind::Ram,
        st.ram,
        snap.ram_usage_percent,
        thresholds.ram_threshold,
        snap,
        min_spike_duration_secs,
    );
    let (io2, e3) = spike_step(
        ResourceKind::Io,
        st.io,
        spec_io_value(snap),
        thresholds.io_threshold,
        snap,
        min_spike_duration_secs,
    );
    (AnalyzerStateView { cpu: cpu2, ram: ram2, io: io2 }, events_of(e1, e2, e3))
}

/// The models of a vector of events.
pub open spec fn views_of_events(evs: Seq<SpikeEvent>) -> Seq<SpikeEventView> {
    Seq::new(evs.len(), |i: int| evs[i]@)
}

/// Analyze one snapshot: step all three resource machines and return the
/// spike events closed on this tick, exactly as `spec_analyze_snapshot` says.
pub fn analyze_snapshot(
    snapshot: &SystemSnapshot,
    thresholds: &Thresholds,
    min_spike_duration_secs: u64,
    state: &mut AnalyzerState,
) -> (events: Vec<SpikeEvent>)
    ensures
        ({
            let (st2, evs2) = spec_analyze_snapshot(
                snapshot@,
                *thresholds,
                min_spike_duration_secs,
                old(state)@,
            );
            final(state)@ == st2 && views_of_events(events@) == evs2
        }),
{
    let mut events: Vec<SpikeEvent> = Vec::new();

    match thresholds.cpu_threshold {
        Some(th) => {
            let ev = update_spike_for_resource(
                ResourceKind::Cpu,
                snapshot.cpu_usage_percent,
                th,
                snapshot,
                min_spike_duration_secs,
                &mut state.cpu,
            );
            if let Some(e) = ev {
                events.push(e);
            }
        },
        None => {
            state.cpu.reset();
        },
    }

    match thresholds.ram_threshold {
        Some(th) => {
            let ev = update_spike_for_resource(
                ResourceKind::Ram,
                snapshot.ram_usage_percent,
                th,
                snapshot,
                min_spike_duration_secs,
                &mut state.ram,
            );
            if let Some(e) = ev {
                events.push(e);
            }
        },
        None => {
            state.ram.reset();
        },
    }

    match thresholds.io_threshold {
        Some(th) => {
            let v = io_value(snapshot);
            let ev = update_spike_for_resource(
                ResourceKind::Io,
                v,
                th,
                snapshot,
                min_spike_duration_secs,
                &mut state.io,
            );
            if let Some(e) = ev {
                events.push(e);
            }
        },
        None => {
            state.io.reset();
        },
    }

    proof {
        let (st2, evs2) = spec_analyze_snapshot(
            snapshot@,
            *thresholds,
            min_spike_duration_secs,
            old(state)@,
        );
        assert(final(state)@ =~= st2);
        assert(views_of_events(events@) =~= evs2);
    }
    events
}

} // verus!
