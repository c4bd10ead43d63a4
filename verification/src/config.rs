//! Configuration types: monitored resource kinds, output format, thresholds
//! and the query shape used when replaying the event log.
//!
//! Utilization values and thresholds are fixed-point numbers: an integer
//! holding the value scaled by 10_000, so `851_234` stands for `85.1234`
//! percent (or MB/s for the I/O resource). This keeps every comparison and
//! every log field exact.

use vstd::prelude::*;

verus! {

/// The closed set of monitored resources.
#[derive(Debug, Clone, Copy, PartialEq, Eq, Structural)]
pub enum ResourceKind {
    Cpu,
    Ram,
    Io,
}

/// How snapshots, events and replayed records are rendered.
#[derive(Debug, Clone, Copy, PartialEq, Eq, Structural)]
pub enum OutputFormat {
    Text,
    Json,
}

/// Scale factor of the fixed-point utilization values: four decimal places.
pub const VALUE_SCALE: u64 = 10_000;

/// One optional fixed-point threshold per resource kind.
/// `None` disables monitoring for that resource.
#[derive(Debug, Clone, Copy, PartialEq, Eq, Structural)]
pub struct Thresholds {
    pub cpu_threshold: Option<u64>,
    pub ram_threshold: Option<u64>,
    pub io_threshold: Option<u64>,
}

impl Thresholds {
    /// Bundle the three optional thresholds.
    pub fn new(cpu: Option<u64>, ram: Option<u64>, io: Option<u64>) -> (r: Thresholds)
        ensures
            r.cpu_threshold == cpu,
            r.ram_threshold == ram,
            r.io_threshold == io,
    {
        Thresholds { cpu_threshold: cpu, ram_threshold: ram, io_threshold: io }
    }

    /// The threshold configured for one resource kind.
    pub fn for_kind(&self, kind: ResourceKind) -> (r: Option<u64>)
        ensures
            r == self.spec_for_kind(kind),
    {
        match kind {
            ResourceKind::Cpu => self.cpu_threshold,
            ResourceKind::Ram => self.ram_threshold,
            ResourceKind::Io => self.io_threshold,
        }
    }

    /// The threshold configured for one resource kind.
    pub open spec fn spec_for_kind(&self, kind: ResourceKind) -> Option<u64> {
        match kind {
            ResourceKind::Cpu => self.cpu_threshold,
            ResourceKind::Ram => self.ram_threshold,
            ResourceKind::Io => self.io_threshold,
        }
    }
}

/// Settings held immutable for a monitoring run.
#[derive(Debug, Clone)]
pub struct RuntimeConfig {
    pub interval_ms: u64,
    pub thresholds: Thresholds,
    pub min_spike_duration_secs: u64,
    pub output_format: OutputFormat,
    pub log_file: Option<String>,
    pub top_n_procs: usize,
}

/// Stop condition for a bounded run.
#[derive(Debug, Clone, Copy, PartialEq, Eq, Structural)]
pub enum BatchLimit {
    DurationSecs(u64),
    Samples(u64),
}

/// Settings for a bounded run: the runtime settings plus a stop condition.
#[derive(Debug, Clone)]
pub struct BatchConfig {
    pub runtime: RuntimeConfig,
    pub limit: BatchLimit,
}

/// Whether a bounded run should stop before taking another sample.
pub fn batch_should_stop(limit: BatchLimit, elapsed_secs: u64, samples: u64) -> (r: bool)
    ensures
        r == spec_batch_should_stop(limit, elapsed_secs, samples),
{
    match limit {
        BatchLimit::DurationSecs(max_secs) => elapsed_secs >= max_secs,
        BatchLimit::Samples(max_samples) => samples >= max_samples,
    }
}

/// A bounded run stops once its time or sample budget is used up.
pub open spec fn spec_batch_should_stop(limit: BatchLimit, elapsed_secs: u64, samples: u64) -> bool {
    match limit {
        BatchLimit::DurationSecs(max_secs) => elapsed_secs >= max_secs,
        BatchLimit::Samples(max_samples) => samples >= max_samples,
    }
}

/// Filters applied when replaying the event log.
#[derive(Debug, Clone)]
pub struct LogsQuery {
    pub log_file: String,
    pub resource_filter: Option<ResourceKind>,
    pub since: Option<u64>,
    pub until: Option<u64>,
    pub limit: Option<usize>,
    pub output_format: OutputFormat,
}

/// Parse the output-format flag; anything but the two known words falls back
/// to `Text`.
pub fn parse_output_format(s: &str) -> (r: OutputFormat)
    ensures
        s@ == "text"@ ==> r == OutputFormat::Text,
        s@ == "json"@ ==> r == OutputFormat::Json,
        s@ != "text"@ && s@ != "json"@ ==> r == OutputFormat::Text,
{
    proof {
        reveal_strlit("text");
        reveal_strlit("json");
        assert("text"@[0] == 't');
        assert("json"@[0] == 'j');
        assert("text"@ != "json"@);
    }
    if compare_str(s, "json") {
        OutputFormat::Json
    } else {
        OutputFormat::Text
    }
}

/// String equality helper with an exact contract over the views.
fn compare_str(a: &str, b: &str) -> (r: bool)
    ensures
        r == (a@ == b@),
{
    let a_bytes = a.as_bytes();
    let b_bytes = b.as_bytes();
    proof {
        vstd::utf8::encode_utf8_decode_utf8(a@);
        vstd::utf8::encode_utf8_decode_utf8(b@);
    }
    if a_bytes.len() != b_bytes.len() {
        return false;
    }
    let n = a_bytes.len();
    let mut i: usize = 0;
    let mut eq = true;
    while i < n
        invariant
            n == a_bytes@.len() == b_bytes@.len(),
            i <= n,
            eq == (forall|j: int| 0 <= j < i ==> a_bytes@[j] == b_bytes@[j]),
        decreases n - i,
    {
        if a_bytes[i] != b_bytes[i] {
            eq = false;
        }
        i += 1;
    }
    if eq {
        proof {
            assert(a_bytes@ =~= b_bytes@);
        }
        true
    } else {
        false
    }
}

/// The display unit of a resource's values.
pub fn resource_unit(kind: ResourceKind) -> (r: &'static str)
    ensures
        kind == ResourceKind::Cpu ==> r@ == "%"@,
        kind == ResourceKind::Ram ==> r@ == "%"@,
        kind == ResourceKind::Io ==> r@ == "MB/s"@,
{
    match kind {
        ResourceKind::Cpu => "%",
        ResourceKind::Ram => "%",
        ResourceKind::Io => "MB/s",
    }
}

} // verus!
