//! Temporal laws of the spike-detection state machine, proved over runs of
//! `spike_step` on sample sequences.

use vstd::prelude::*;

use crate::analyzer::{
    opt_seq, spec_duration_secs, spike_step, SpikeEventView, SpikeStateView,
};
use crate::config::ResourceKind;
use crate::metrics::SystemSnapshotView;

verus! {

/// Run one resource's machine over a sequence of samples, each a sampled
/// value paired with its snapshot, under a fixed configured threshold.
/// Returns the final state and all events emitted, in order.
pub open spec fn run_steps(
    resource: ResourceKind,
    st: SpikeStateView,
    samples: Seq<(u64, SystemSnapshotView)>,
    threshold: u64,
    min_spike_duration_secs: u64,
) -> (SpikeStateView, Seq<SpikeEventView>)
    decreases samples.len(),
{
    if samples.len() == 0 {
        (st, Seq::empty())
    } else {
        let stepped = spike_step(
            resource,
            st,
            samples[0].0,
            Option::Some(threshold),
            samples[0].1,
            min_spike_duration_secs,
        );
        let rest = run_steps(
            resource,
            stepped.0,
            samples.skip(1),
            threshold,
            min_spike_duration_secs,
        );
        (rest.0, opt_seq(stepped.1) + rest.1)
    }
}

/// The start timestamp recorded in an open spike (zero when idle).
pub open spec fn spiking_start(st: SpikeStateView) -> u64 {
    match st {
        SpikeStateView::Spiking { start, .. } => start,
        SpikeStateView::Idle => 0,
    }
}

/// The running peak recorded in an open spike (zero when idle).
pub open spec fn spiking_peak(st: SpikeStateView) -> u64 {
    match st {
        SpikeStateView::Spiking { peak, .. } => peak,
        SpikeStateView::Idle => 0,
    }
}

/// The snapshot retained at the running peak (an empty default when idle).
pub open spec fn spiking_snapshot(st: SpikeStateView) -> SystemSnapshotView {
    match st {
        SpikeStateView::Spiking { peak_snapshot, .. } => peak_snapshot,
        SpikeStateView::Idle => SystemSnapshotView {
            timestamp: 0,
            cpu_usage_percent: 0,
            ram_usage_percent: 0,
            io_read_bytes_per_s: 0,
            io_write_bytes_per_s: 0,
            top_processes: Seq::empty(),
        },
    }
}

/// The largest sampled value in a sample sequence (zero when empty).
pub open spec fn max_value(samples: Seq<(u64, SystemSnapshotView)>) -> u64
    decreases samples.len(),
{
    if samples.len() == 0 {
        0
    } else {
        let rest = max_value(samples.skip(1));
        if samples[0].0 >= rest {
            samples[0].0
        } else {
            rest
        }
    }
}

/// Running a concatenation of sample sequences is running the pieces in turn;
/// the emitted events concatenate in the same order.
pub proof fn lemma_run_concat(
    resource: ResourceKind,
    st: SpikeStateView,
    s1: Seq<(u64, SystemSnapshotView)>,
    s2: Seq<(u64, SystemSnapshotView)>,
    threshold: u64,
    min_spike_duration_secs: u64,
)
    ensures
        ({
            let first = run_steps(resource, st, s1, threshold, min_spike_duration_secs);
            let second = run_steps(resource, first.0, s2, threshold, min_spike_duration_secs);
            let whole = run_steps(resource, st, s1 + s2, threshold, min_spike_duration_secs);
            whole.0 == second.0 && whole.1 =~= first.1 + second.1
        }),
    decreases s1.len(),
{
    if s1.len() == 0 {
        assert(s1 + s2 =~= s2);
        let first = run_steps(resource, st, s1, threshold, min_spike_duration_secs);
        assert(first.1 + run_steps(resource, first.0, s2, threshold, min_spike_duration_secs).1
            =~= run_steps(resource, st, s2, threshold, min_spike_duration_secs).1);
    } else {
        let stepped = spike_step(
            resource,
            st,
            s1[0].0,
            Option::Some(threshold),
            s1[0].1,
            min_spike_duration_secs,
        );
        assert((s1 + s2)[0] == s1[0]);
        assert((s1 + s2).skip(1) =~= s1.skip(1) + s2);
        lemma_run_concat(resource, stepped.0, s1.skip(1), s2, threshold, min_spike_duration_secs);
        let tail_first = run_steps(
            resource,
            stepped.0,
            s1.skip(1),
            threshold,
            min_spike_duration_secs,
        );
        let second = run_steps(resource, tail_first.0, s2, threshold, min_spike_duration_secs);
        assert(opt_seq(stepped.1) + (tail_first.1 + second.1)
            =~= (opt_seq(stepped.1) + tail_first.1) + second.1);
    }
}

/// While every sampled value stays below the threshold, an idle machine stays
/// idle and emits nothing.
pub proof fn lemma_run_idle(
    resource: ResourceKind,
    samples: Seq<(u64, SystemSnapshotView)>,
    threshold: u64,
    min_spike_duration_secs: u64,
)
    requires
        forall|i: int| 0 <= i < samples.len() ==> #[trigger] samples[i].0 < threshold,
    ensures
        ({
            let r = run_steps(
                resource,
                SpikeStateView::Idle,
                samples,
                threshold,
                min_spike_duration_secs,
            );
            r.0 == SpikeStateView::Idle && r.1 =~= Seq::<SpikeEventView>::empty()
        }),
    decreases samples.len(),
{
    if samples.len() > 0 {
        lemma_run_idle(resource, samples.skip(1), threshold, min_spike_duration_secs);
    }
}

/// While every sampled value stays at or above the threshold, an open spike
/// stays open, keeps its start timestamp, emits nothing, and its running peak
/// becomes the maximum of the old peak and every value seen.
pub proof fn lemma_run_spiking(
    resource: ResourceKind,
    start: u64,
    peak: u64,
    peak_snapshot: SystemSnapshotView,
    samples: Seq<(u64, SystemSnapshotView)>,
    threshold: u64,
    min_spike_duration_secs: u64,
)
    requires
        forall|i: int| 0 <= i < samples.len() ==> #[trigger] samples[i].0 >= threshold,
    ensures
        ({
            let r = run_steps(
                resource,
                SpikeStateView::Spiking { start, peak, peak_snapshot },
                samples,
                threshold,
                min_spike_duration_secs,
            );
            &&& r.0 is Spiking
            &&& spiking_start(r.0) == start
            &&& spiking_peak(r.0) == if peak >= max_value(samples) { peak } else { max_value(samples) }
            &&& r.1 =~= Seq::<SpikeEventView>::empty()
        }),
    decreases samples.len(),
{
    if samples.len() > 0 {
        let stepped = spike_step(
            resource,
            SpikeStateView::Spiking { start, peak, peak_snapshot },
            samples[0].0,
            Option::Some(threshold),
            samples[0].1,
            min_spike_duration_secs,
        );
        let peak1 = spiking_peak(stepped.0);
        let snap1 = spiking_snapshot(stepped.0);
        lemma_run_spiking(
            resource,
            start,
            peak1,
            snap1,
            samples.skip(1),
            threshold,
            min_spike_duration_secs,
        );
    }
}

/// A sampled value equal to the running peak extends the spike but keeps the
/// previously recorded peak snapshot: ties do not replace it.
pub proof fn lemma_tie_keeps_peak_snapshot(
    resource: ResourceKind,
    start: u64,
    peak: u64,
    peak_snapshot: SystemSnapshotView,
    threshold: u64,
    snap: SystemSnapshotView,
    min_spike_duration_secs: u64,
)
    requires
        threshold <= peak,
    ensures
        ({
            let stepped = spike_step(
                resource,
                SpikeStateView::Spiking { start, peak, peak_snapshot },
                peak,
                Option::Some(threshold),
                snap,
                min_spike_duration_secs,
            );
            &&& stepped.0 == SpikeStateView::Spiking { start, peak, peak_snapshot }
            &&& stepped.1 is None
        }),
{
}

/// Unconfiguring the threshold forces the machine to `Idle` and discards any
/// open spike without an event, whatever its duration so far.
pub proof fn lemma_disabled_threshold_discards(
    resource: ResourceKind,
    st: SpikeStateView,
    value: u64,
    snap: SystemSnapshotView,
    min_spike_duration_secs: u64,
)
    ensures
        spike_step(resource, st, value, Option::None, snap, min_spike_duration_secs).0
            == SpikeStateView::Idle,
        spike_step(resource, st, value, Option::None, snap, min_spike_duration_secs).1
            is None,
{
}

/// An excursion whose measured duration in whole seconds is below the minimum
/// closes silently: the machine resets to `Idle` and no event is produced.
pub proof fn lemma_short_spike_suppressed(
    resource: ResourceKind,
    start: u64,
    peak: u64,
    peak_snapshot: SystemSnapshotView,
    value: u64,
    threshold: u64,
    snap: SystemSnapshotView,
    min_spike_duration_secs: u64,
)
    requires
        value < threshold,
        spec_duration_secs(start, snap.timestamp) < min_spike_duration_secs,
    ensures
        ({
            let stepped = spike_step(
                resource,
                SpikeStateView::Spiking { start, peak, peak_snapshot },
                value,
                Option::Some(threshold),
                snap,
                min_spike_duration_secs,
            );
            stepped.0 == SpikeStateView::Idle && stepped.1 is None
        }),
{
}

/// Exactly one event per contiguous excursion. Starting idle, with every value
/// before index `f` below the threshold, values from `f` up to (not including)
/// `l` at or above it, and the value at `l` back below it: processing the
/// samples through index `l` ends idle and emits exactly one event — whose
/// start is the timestamp of sample `f`, whose end is the timestamp of sample
/// `l`, and whose peak is the largest value sampled during the excursion — if
/// the excursion lasted at least the minimum duration, and no event at all
/// otherwise.
pub proof fn lemma_single_excursion(
    resource: ResourceKind,
    samples: Seq<(u64, SystemSnapshotView)>,
    threshold: u64,
    min_spike_duration_secs: u64,
    f: int,
    l: int,
)
    requires
        0 <= f < l < samples.len(),
        forall|i: int| 0 <= i < f ==> #[trigger] samples[i].0 < threshold,
        forall|i: int| f <= i < l ==> #[trigger] samples[i].0 >= threshold,
        samples[l].0 < threshold,
    ensures
        ({
            let r = run_steps(
                resource,
                SpikeStateView::Idle,
                samples.take(l + 1),
                threshold,
                min_spike_duration_secs,
            );
            let start_ts = samples[f].1.timestamp;
            let end_ts = samples[l].1.timestamp;
            let peak = max_value(samples.subrange(f, l));
            &&& r.0 == SpikeStateView::Idle
            &&& (spec_duration_secs(start_ts, end_ts) >= min_spike_duration_secs ==> {
                &&& r.1.len() == 1
                &&& r.1[0].resource == resource
                &&& r.1[0].timestamp_start == start_ts
                &&& r.1[0].timestamp_end == end_ts
                &&& r.1[0].peak_value == peak
                &&& r.1[0].threshold == threshold
            })
            &&& (spec_duration_secs(start_ts, end_ts) < min_spike_duration_secs ==> r.1.len() == 0)
        }),
{
    let prefix = samples.take(f);
    let entry = samples.subrange(f, f + 1);
    let high = samples.subrange(f + 1, l);
    let exit = samples.subrange(l, l + 1);

    // The window splits into: all-below prefix, the entering sample, the
    // at-or-above middle, and the closing sample.
    assert(samples.take(l + 1) =~= prefix + (entry + (high + exit)));

    lemma_run_concat(
        resource,
        SpikeStateView::Idle,
        prefix,
        entry + (high + exit),
        threshold,
        min_spike_duration_secs,
    );
    lemma_run_idle(resource, prefix, threshold, min_spike_duration_secs);

    // The entering sample opens the spike.
    let opened = spike_step(
        resource,
        SpikeStateView::Idle,
        samples[f].0,
        Option::Some(threshold),
        samples[f].1,
        min_spike_duration_secs,
    );
    assert(entry[0] == samples[f]);
    assert(entry.skip(1) =~= Seq::<(u64, SystemSnapshotView)>::empty());
    lemma_run_concat(
        resource,
        SpikeStateView::Idle,
        entry,
        high + exit,
        threshold,
        min_spike_duration_secs,
    );
    let st_open = SpikeStateView::Spiking {
        start: samples[f].1.timestamp,
        peak: samples[f].0,
        peak_snapshot: samples[f].1,
    };
    assert(samples[f].0 >= threshold);
    assert(opened.0 == st_open);
    let after_entry = run_steps(resource, opened.0, entry.skip(1), threshold, min_spike_duration_secs);
    assert(after_entry.0 == opened.0);
    assert(run_steps(resource, SpikeStateView::Idle, entry, threshold, min_spike_duration_secs).0
        == st_open);

    // The middle keeps the spike open and tracks the running peak.
    lemma_run_concat(
        resource,
        st_open,
        high,
        exit,
        threshold,
        min_spike_duration_secs,
    );
    assert(forall|i: int| 0 <= i < high.len() ==> #[trigger] high[i].0 >= threshold);
    lemma_run_spiking(
        resource,
        samples[f].1.timestamp,
        samples[f].0,
        samples[f].1,
        high,
        threshold,
        min_spike_duration_secs,
    );
    let st_high = run_steps(resource, st_open, high, threshold, min_spike_duration_secs).0;

    // The running peak after the middle is the maximum over the excursion.
    let excursion = samples.subrange(f, l);
    assert(excursion[0] == samples[f]);
    assert(excursion.skip(1) =~= high);
    assert(spiking_peak(st_high) == max_value(excursion));

    // The closing sample resets the machine and emits the event exactly when
    // the duration filter passes.
    assert(exit[0] == samples[l]);
    assert(exit.skip(1) =~= Seq::<(u64, SystemSnapshotView)>::empty());
    let closed = spike_step(
        resource,
        st_high,
        samples[l].0,
        Option::Some(threshold),
        samples[l].1,
        min_spike_duration_secs,
    );
    assert(closed.0 == SpikeStateView::Idle);
    let after_exit = run_steps(resource, closed.0, exit.skip(1), threshold, min_spike_duration_secs);
    let exit_run = run_steps(resource, st_high, exit, threshold, min_spike_duration_secs);
    assert(exit_run.0 == after_exit.0);
    assert(exit_run.1 =~= opt_seq(closed.1));

    // Assemble the pieces.
    let r = run_steps(
        resource,
        SpikeStateView::Idle,
        samples.take(l + 1),
        threshold,
        min_spike_duration_secs,
    );
    assert(r.0 == SpikeStateView::Idle);
    assert(r.1 =~= opt_seq(closed.1));
}

} // verus!
