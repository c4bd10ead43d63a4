//! Sample data: one process entry and one timestamped snapshot of host
//! utilization. Values are fixed-point (scaled by `VALUE_SCALE`); timestamps
//! are whole seconds since the Unix epoch. Acquisition of raw readings is an
//! outside collaborator's job; this module holds the data model and the pure
//! computations over raw readings (CPU-delta usage, `/proc` text parsing).

use vstd::prelude::*;

verus! {

/// One entry of the ranked top-process list attached to a snapshot.
#[derive(Debug)]
pub struct ProcessSample {
    pub pid: u32,
    /// Process name, as raw bytes.
    pub name: Vec<u8>,
    /// CPU share of this process, percent scaled by `VALUE_SCALE`.
    pub cpu_percent: u64,
    pub ram_bytes: u64,
}

/// Mathematical model of a `ProcessSample`.
#[verifier::ext_equal]
pub ghost struct ProcessSampleView {
    pub pid: u32,
    pub name: Seq<u8>,
    pub cpu_percent: u64,
    pub ram_bytes: u64,
}

impl View for ProcessSample {
    type V = ProcessSampleView;

    open spec fn view(&self) -> ProcessSampleView {
        ProcessSampleView {
            pid: self.pid,
            name: self.name@,
            cpu_percent: self.cpu_percent,
            ram_bytes: self.ram_bytes,
        }
    }
}

/// One timestamped reading of host utilization.
#[derive(Debug)]
pub struct SystemSnapshot {
    /// Seconds since the Unix epoch.
    pub timestamp: u64,
    /// CPU utilization, percent scaled by `VALUE_SCALE`.
    pub cpu_usage_percent: u64,
    /// RAM utilization, percent scaled by `VALUE_SCALE`.
    pub ram_usage_percent: u64,
    pub io_read_bytes_per_s: u64,
    pub io_write_bytes_per_s: u64,
    pub top_processes: Vec<ProcessSample>,
}

/// Mathematical model of a `SystemSnapshot`.
#[verifier::ext_equal]
pub ghost struct SystemSnapshotView {
    pub timestamp: u64,
    pub cpu_usage_percent: u64,
    pub ram_usage_percent: u64,
    pub io_read_bytes_per_s: u64,
    pub io_write_bytes_per_s: u64,
    pub top_processes: Seq<ProcessSampleView>,
}

impl View for SystemSnapshot {
    type V = SystemSnapshotView;

    open spec fn view(&self) -> SystemSnapshotView {
        SystemSnapshotView {
            timestamp: self.timestamp,
            cpu_usage_percent: self.cpu_usage_percent,
            ram_usage_percent: self.ram_usage_percent,
            io_read_bytes_per_s: self.io_read_bytes_per_s,
            io_write_bytes_per_s: self.io_write_bytes_per_s,
            top_processes: Seq::new(
                self.top_processes@.len(),
                |i: int| self.top_processes@[i]@,
            ),
        }
    }
}

/// Byte-for-byte copy of a byte vector.
pub fn copy_bytes(v: &Vec<u8>) -> (r: Vec<u8>)
    ensures
        r@ == v@,
{
    let mut out: Vec<u8> = Vec::new();
    let mut i: usize = 0;
    while i < v.len()
        invariant
            i <= v@.len(),
            out@ =~= v@.subrange(0, i as int),
        decreases v@.len() - i,
    {
        out.push(v[i]);
        i += 1;
    }
    proof {
        assert(out@ =~= v@);
    }
    out
}

impl ProcessSample {
    /// A copy with the same model.
    pub fn duplicate(&self) -> (r: ProcessSample)
        ensures
            r@ == self@,
    {
        ProcessSample {
            pid: self.pid,
            name: copy_bytes(&self.name),
            cpu_percent: self.cpu_percent,
            ram_bytes: self.ram_bytes,
        }
    }
}

/// An element-for-element copy of a top-process list.
pub fn copy_process_list(v: &Vec<ProcessSample>) -> (r: Vec<ProcessSample>)
    ensures
        r@.len() == v@.len(),
        forall|i: int| 0 <= i < v@.len() ==> r@[i]@ == v@[i]@,
{
    let mut out: Vec<ProcessSample> = Vec::new();
    let mut i: usize = 0;
    while i < v.len()
        invariant
            i <= v@.len(),
            out@.len() == i,
            forall|j: int| 0 <= j < i ==> out@[j]@ == v@[j]@,
        decreases v@.len() - i,
    {
        out.push(v[i].duplicate());
        i += 1;
    }
    out
}

impl SystemSnapshot {
    /// A copy with the same model.
    pub fn duplicate(&self) -> (r: SystemSnapshot)
        ensures
            r@ == self@,
    {
        let r = SystemSnapshot {
            timestamp: self.timestamp,
            cpu_usage_percent: self.cpu_usage_percent,
            ram_usage_percent: self.ram_usage_percent,
            io_read_bytes_per_s: self.io_read_bytes_per_s,
            io_write_bytes_per_s: self.io_write_bytes_per_s,
            top_processes: copy_process_list(&self.top_processes),
        };
        proof {
            assert(r@ =~= self@);
        }
        r
    }
}


/// A byte that separates tokens within a line.
pub open spec fn is_space(b: u8) -> bool {
    b == 32 || b == 9 || b == 13
}

/// A byte that belongs to a token: neither a separator nor a line break.
pub open spec fn is_token_byte(b: u8) -> bool {
    !is_space(b) && b != 10
}

/// Where the token starting at `i` ends: the first separator or line break
/// at or after `i` (or the end of the text).
pub open spec fn token_end(s: Seq<u8>, i: int) -> int
    decreases s.len() - i,
{
    if i < 0 || i >= s.len() || !is_token_byte(s[i]) {
        i
    } else {
        token_end(s, i + 1)
    }
}

/// The token end lies between `i` and the end of the text, and is a boundary.
pub proof fn lemma_token_end(s: Seq<u8>, i: int)
    requires
        0 <= i <= s.len(),
    ensures
        i <= token_end(s, i) <= s.len(),
        forall|k: int| i <= k < token_end(s, i) ==> is_token_byte(#[trigger] s[k]),
        token_end(s, i) < s.len() ==> !is_token_byte(s[token_end(s, i)]),
    decreases s.len() - i,
{
    if i < s.len() && is_token_byte(s[i]) {
        lemma_token_end(s, i + 1);
    }
}

/// The tokens of the line starting at `i`: maximal runs of token bytes, up to
/// the first line break (or the end of the text).
pub open spec fn line_tokens(s: Seq<u8>, i: int) -> Seq<Seq<u8>>
    decreases s.len() - i, 1int
    when 0 <= i <= s.len()
{
    if i >= s.len() || s[i] == 10 {
        Seq::empty()
    } else if is_space(s[i]) {
        line_tokens(s, i + 1)
    } else {
        line_tokens_from_token(s, i)
    }
}

/// The tokens of a line known to start with a token byte.
pub open spec fn line_tokens_from_token(s: Seq<u8>, i: int) -> Seq<Seq<u8>>
    decreases s.len() - i, 0int
    when 0 <= i < s.len() && is_token_byte(s[i])
    via line_tokens_from_token_dec
{
    seq![s.subrange(i, token_end(s, i))] + line_tokens(s, token_end(s, i))
}

#[via_fn]
proof fn line_tokens_from_token_dec(s: Seq<u8>, i: int) {
    lemma_token_end(s, i);
    lemma_token_end(s, i + 1);
}

/// The numeric value of a token: all bytes decimal digits (leading zeros
/// allowed) and the value within range.
pub open spec fn token_u64(t: Seq<u8>) -> Option<u64> {
    if t.len() >= 1 && (forall|k: int| 0 <= k < t.len() ==> crate::numfmt::is_digit(#[trigger] t[k]))
        && crate::numfmt::dec_val(t) <= u64::MAX {
        Option::Some(crate::numfmt::dec_val(t) as u64)
    } else {
        Option::None
    }
}

/// The numeric tokens of a token list, in order; tokens that are not plain
/// decimal numbers are skipped.
pub open spec fn numeric_values(tokens: Seq<Seq<u8>>) -> Seq<u64>
    decreases tokens.len(),
{
    if tokens.len() == 0 {
        Seq::empty()
    } else {
        match token_u64(tokens[0]) {
            Option::Some(n) => seq![n] + numeric_values(tokens.skip(1)),
            Option::None => numeric_values(tokens.skip(1)),
        }
    }
}

/// Read one token's numeric value, if it is a plain decimal number in range.
pub fn parse_token_u64(t: &Vec<u8>) -> (r: Option<u64>)
    ensures
        r == token_u64(t@),
{
    let ghost s = t@;
    let n = t.len();
    if n == 0 {
        return None;
    }
    let mut acc: u128 = 0;
    let mut i: usize = 0;
    while i < n
        invariant
            s == t@,
            n == s.len(),
            i <= n,
            forall|k: int| 0 <= k < i ==> crate::numfmt::is_digit(#[trigger] s[k]),
            acc as int == crate::numfmt::dec_val(s.subrange(0, i as int)),
            acc <= u64::MAX as u128,
        decreases n - i,
    {
        let b = t[i];
        if !crate::numfmt::byte_is_digit(b) {
            return None;
        }
        proof {
            crate::numfmt::lemma_dec_val_snoc(s.subrange(0, i as int), s[i as int]);
            assert(s.subrange(0, i as int + 1)
                =~= s.subrange(0, i as int).push(s[i as int]));
        }
        acc = acc * 10 + (b - 48) as u128;
        i = i + 1;
        if acc > u64::MAX as u128 {
            proof {
                if forall|k: int| 0 <= k < s.len() ==> crate::numfmt::is_digit(#[trigger] s[k]) {
                    crate::numfmt::lemma_dec_val_prefix_le(s, i as int);
                    assert(s.subrange(0, i as int) =~= s.take(i as int));
                }
            }
            return None;
        }
    }
    proof {
        assert(s.subrange(0, n as int) =~= s);
    }
    Some(acc as u64)
}

/// The models of a vector of tokens.
pub open spec fn token_views(ts: Seq<Vec<u8>>) -> Seq<Seq<u8>> {
    Seq::new(ts.len(), |k: int| ts[k]@)
}

/// Split the line starting at `start` into its tokens.
pub fn tokenize_line_at(s: &Vec<u8>, start: usize) -> (r: Vec<Vec<u8>>)
    requires
        start <= s@.len(),
    ensures
        token_views(r@) == line_tokens(s@, start as int),
{
    let ghost sv = s@;
    let ghost total = line_tokens(sv, start as int);
    let len = s.len();
    let mut out: Vec<Vec<u8>> = Vec::new();
    let mut i: usize = start;
    proof {
        assert(token_views(out@) =~= Seq::<Seq<u8>>::empty());
        assert(Seq::<Seq<u8>>::empty() + total =~= total);
    }
    while i < len
        invariant
            sv == s@,
            len == sv.len(),
            start <= i <= len,
            token_views(out@) + line_tokens(sv, i as int) == total,
            total == line_tokens(sv, start as int),
        ensures
            token_views(out@) == total,
        decreases len - i,
    {
        let b = s[i];
        if b == 10 {
            proof {
                assert(token_views(out@) + Seq::<Seq<u8>>::empty() =~= token_views(out@));
            }
            break;
        }
        if b == 32 || b == 9 || b == 13 {
            i = i + 1;
        } else {
            // Scan to the end of the token.
            let start_tok = i;
            let mut j = i;
            while j < len && s[j] != 10 && s[j] != 32 && s[j] != 9 && s[j] != 13
                invariant
                    sv == s@,
                    len == sv.len(),
                    start_tok <= j <= len,
                    token_end(sv, start_tok as int) == token_end(sv, j as int),
                decreases len - j,
            {
                j = j + 1;
            }
            proof {
                assert(token_end(sv, j as int) == j);
            }
            // Copy the token's bytes.
            let mut tok: Vec<u8> = Vec::new();
            let mut k = start_tok;
            while k < j
                invariant
                    sv == s@,
                    len == sv.len(),
                    start_tok <= k <= j <= len,
                    tok@ == sv.subrange(start_tok as int, k as int),
                decreases j - k,
            {
                tok.push(s[k]);
                k = k + 1;
                proof {
                    assert(tok@ =~= sv.subrange(start_tok as int, k as int));
                }
            }
            proof {
                assert(tok@ =~= sv.subrange(start_tok as int, j as int));
            }
            let ghost before = out@;
            out.push(tok);
            proof {
                assert(token_views(out@) =~= token_views(before)
                    + seq![sv.subrange(start_tok as int, j as int)]);
                assert(is_token_byte(sv[i as int]));
                assert(token_end(sv, i as int) == j);
                assert(line_tokens(sv, i as int) == line_tokens_from_token(sv, i as int));
                assert(line_tokens(sv, i as int)
                    == seq![sv.subrange(start_tok as int, j as int)]
                        + line_tokens(sv, j as int));
                assert((token_views(before) + seq![sv.subrange(start_tok as int, j as int)])
                    + line_tokens(sv, j as int)
                    =~= token_views(before) + line_tokens(sv, i as int));
            }
            i = j;
        }
    }
    proof {
        assert(token_views(out@) + Seq::<Seq<u8>>::empty() =~= token_views(out@));
    }
    out
}


/// Byte-vector equality.
pub fn bytes_eq(a: &Vec<u8>, b: &Vec<u8>) -> (r: bool)
    ensures
        r == (a@ == b@),
{
    if a.len() != b.len() {
        return false;
    }
    let n = a.len();
    let mut i: usize = 0;
    let mut eq = true;
    while i < n
        invariant
            n == a@.len() == b@.len(),
            i <= n,
            eq == (forall|j: int| 0 <= j < i ==> a@[j] == b@[j]),
        decreases n - i,
    {
        if a[i] != b[i] {
            eq = false;
        }
        i += 1;
    }
    if eq {
        proof {
            assert(a@ =~= b@);
        }
        true
    } else {
        false
    }
}

/// Collect the numeric tokens from position `from` on.
pub fn numeric_of_tokens(tokens: &Vec<Vec<u8>>, from: usize) -> (r: Vec<u64>)
    requires
        from <= tokens@.len(),
    ensures
        r@ == numeric_values(token_views(tokens@).skip(from as int)),
{
    let ghost tv = token_views(tokens@);
    let ghost total = numeric_values(tv.skip(from as int));
    let n = tokens.len();
    let mut out: Vec<u64> = Vec::new();
    let mut i: usize = from;
    proof {
        assert(Seq::<u64>::empty() + total =~= total);
        assert(out@ =~= Seq::<u64>::empty());
    }
    while i < n
        invariant
            tv == token_views(tokens@),
            n == tv.len(),
            from <= i <= n,
            out@ + numeric_values(tv.skip(i as int)) == total,
            total == numeric_values(tv.skip(from as int)),
        decreases n - i,
    {
        let parsed = parse_token_u64(&tokens[i]);
        proof {
            assert(tv.skip(i as int)[0] == tv[i as int]);
            assert(tv[i as int] == tokens@[i as int]@);
            assert(tv.skip(i as int).skip(1) =~= tv.skip(i as int + 1));
        }
        match parsed {
            Some(v) => {
                let ghost before = out@;
                out.push(v);
                proof {
                    assert(out@ =~= before + seq![v]);
                    assert((before + seq![v]) + numeric_values(tv.skip(i as int + 1))
                        =~= before + (seq![v] + numeric_values(tv.skip(i as int + 1))));
                }
            },
            None => {
            },
        }
        i += 1;
    }
    proof {
        assert(tv.skip(n as int) =~= Seq::<Seq<u8>>::empty());
        assert(out@ + Seq::<u64>::empty() =~= out@);
    }
    out
}

/// Aggregated CPU times read from the kernel's counters: ticks spent idle
/// (idle plus iowait) and total ticks.
#[derive(Debug, Clone, Copy, PartialEq, Eq, Structural)]
pub struct CpuTimes {
    pub idle_all: u64,
    pub total: u64,
}

/// Clamp a non-negative value into the `u64` range.
pub open spec fn clamp_u64(x: int) -> u64 {
    if x > u64::MAX {
        u64::MAX
    } else if x < 0 {
        0
    } else {
        x as u64
    }
}

/// The first line's tag in the kernel's CPU statistics text.
pub open spec fn cpu_tag() -> Seq<u8> {
    seq![99u8, 112u8, 117u8]
}

/// The aggregated times that a list of per-state tick counts yields:
/// user, nice, system, idle, then optionally iowait, irq, softirq, steal.
/// Sums saturate rather than wrap.
pub open spec fn spec_cpu_times(vals: Seq<u64>) -> CpuTimes {
    let user = vals[0];
    let nice = vals[1];
    let system = vals[2];
    let idle = vals[3];
    let iowait: u64 = if vals.len() > 4 { vals[4] } else { 0 };
    let irq: u64 = if vals.len() > 5 { vals[5] } else { 0 };
    let softirq: u64 = if vals.len() > 6 { vals[6] } else { 0 };
    let steal: u64 = if vals.len() > 7 { vals[7] } else { 0 };
    let idle_all = clamp_u64(idle + iowait);
    let non_idle = clamp_u64(user + nice + system + irq + softirq + steal);
    CpuTimes { idle_all, total: clamp_u64(idle_all + non_idle) }
}

/// Parse the kernel's CPU statistics text: the first line must be tagged
/// `cpu` and carry at least four numeric fields.
pub fn parse_cpu_times(contents: &Vec<u8>) -> (r: Option<CpuTimes>)
    ensures
        ({
            let tokens = line_tokens(contents@, 0);
            if tokens.len() >= 1 && tokens[0] == cpu_tag()
                && numeric_values(tokens.skip(1)).len() >= 4 {
                r == Option::Some(spec_cpu_times(numeric_values(tokens.skip(1))))
            } else {
                r is None
            }
        }),
{
    let tokens = tokenize_line_at(contents, 0);
    if tokens.len() == 0 {
        return None;
    }
    let mut tag: Vec<u8> = Vec::new();
    tag.push(99);
    tag.push(112);
    tag.push(117);
    proof {
        assert(tag@ =~= cpu_tag());
        assert(token_views(tokens@)[0] == tokens@[0]@);
    }
    if !bytes_eq(&tokens[0], &tag) {
        return None;
    }
    let vals = numeric_of_tokens(&tokens, 1);
    proof {
        assert(token_views(tokens@).skip(1) =~= line_tokens(contents@, 0).skip(1));
    }
    if vals.len() < 4 {
        return None;
    }
    let user = vals[0];
    let nice = vals[1];
    let system = vals[2];
    let idle = vals[3];
    let iowait: u64 = if vals.len() > 4 { vals[4] } else { 0 };
    let irq: u64 = if vals.len() > 5 { vals[5] } else { 0 };
    let softirq: u64 = if vals.len() > 6 { vals[6] } else { 0 };
    let steal: u64 = if vals.len() > 7 { vals[7] } else { 0 };
    let idle_all = idle.saturating_add(iowait);
    let non_idle = user
        .saturating_add(nice)
        .saturating_add(system)
        .saturating_add(irq)
        .saturating_add(softirq)
        .saturating_add(steal);
    let total = idle_all.saturating_add(non_idle);
    let r = CpuTimes { idle_all, total };
    proof {
        assert(r == spec_cpu_times(numeric_values(line_tokens(contents@, 0).skip(1))));
    }
    Some(r)
}

/// The CPU usage (percent, fixed-point) that a pair of readings yields: the
/// non-idle share of the elapsed ticks, zero on the first reading or when no
/// time elapsed. Deltas clamp to zero if a counter moved backward.
pub open spec fn spec_cpu_usage(prev: Option<CpuTimes>, current: CpuTimes) -> u64 {
    match prev {
        Option::None => 0,
        Option::Some(p) => {
            let delta_total: u64 = if current.total >= p.total {
                (current.total - p.total) as u64
            } else {
                0
            };
            let delta_idle: u64 = if current.idle_all >= p.idle_all {
                (current.idle_all - p.idle_all) as u64
            } else {
                0
            };
            if delta_total == 0 {
                0
            } else {
                let non_idle: u64 = if delta_total >= delta_idle {
                    (delta_total - delta_idle) as u64
                } else {
                    0
                };
                ((non_idle * 1_000_000) as int / delta_total as int) as u64
            }
        },
    }
}

/// One step of the sampler's CPU-usage tracking: from the remembered previous
/// reading and the current one, the usage over the interval (zero on the
/// first reading) and the reading to remember next. The previous reading is
/// explicit state threaded through the caller, not process-wide state.
pub fn cpu_state(prev: Option<CpuTimes>, current: CpuTimes) -> (r: (u64, Option<CpuTimes>))
    ensures
        r.0 == spec_cpu_usage(prev, current),
        r.1 == Option::Some(current),
{
    let usage: u64 = match prev {
        None => 0,
        Some(p) => {
            let delta_total: u64 = if current.total >= p.total {
                current.total - p.total
            } else {
                0
            };
            let delta_idle: u64 = if current.idle_all >= p.idle_all {
                current.idle_all - p.idle_all
            } else {
                0
            };
            if delta_total == 0 {
                0
            } else {
                let non_idle: u64 = if delta_total >= delta_idle {
                    delta_total - delta_idle
                } else {
                    0
                };
                let scaled: u128 = (non_idle as u128) * 1_000_000 / (delta_total as u128);
                proof {
                    assert(scaled <= 1_000_000) by {
                        vstd::arithmetic::div_mod::lemma_div_is_ordered(
                            non_idle as int * 1_000_000,
                            delta_total as int * 1_000_000,
                            delta_total as int,
                        );
                        vstd::arithmetic::div_mod::lemma_div_by_multiple(
                            1_000_000,
                            delta_total as int,
                        );
                    }
                }
                scaled as u64
            }
        },
    };
    (usage, Some(current))
}

/// The key of the total-memory line in the kernel's memory statistics text.
pub open spec fn mem_total_key() -> Seq<u8> {
    seq![77u8, 101u8, 109u8, 84u8, 111u8, 116u8, 97u8, 108u8, 58u8]
}

/// The key of the available-memory line.
pub open spec fn mem_available_key() -> Seq<u8> {
    seq![
        77u8, 101u8, 109u8, 65u8, 118u8, 97u8, 105u8, 108u8, 97u8, 98u8, 108u8, 101u8,
        58u8,
    ]
}

/// Where the line starting at `i` ends: the first line break at or after `i`,
/// or the end of the text.
pub open spec fn line_end_pos(s: Seq<u8>, i: int) -> int
    decreases s.len() - i,
{
    if i < 0 || i >= s.len() || s[i] == 10 {
        i
    } else {
        line_end_pos(s, i + 1)
    }
}

/// The line end lies between `i` and the end of the text.
pub proof fn lemma_line_end_pos(s: Seq<u8>, i: int)
    requires
        0 <= i <= s.len(),
    ensures
        i <= line_end_pos(s, i) <= s.len(),
    decreases s.len() - i,
{
    if i < s.len() && s[i] != 10 {
        lemma_line_end_pos(s, i + 1);
    }
}

/// The value of the last line whose first token is `key` and whose second
/// token is numeric, scanning from position `i`.
pub open spec fn find_last_field(s: Seq<u8>, i: int, key: Seq<u8>) -> Option<u64>
    decreases s.len() - i,
    when 0 <= i <= s.len()
    via find_last_field_decreases
{
    if i >= s.len() {
        Option::None
    } else {
        let toks = line_tokens(s, i);
        let here: Option<u64> = if toks.len() >= 2 && toks[0] == key {
            token_u64(toks[1])
        } else {
            Option::None
        };
        let next = line_end_pos(s, i) + 1;
        if next > s.len() {
            here
        } else {
            match find_last_field(s, next, key) {
                Option::Some(v) => Option::Some(v),
                Option::None => here,
            }
        }
    }
}

#[via_fn]
proof fn find_last_field_decreases(s: Seq<u8>, i: int, key: Seq<u8>) {
    lemma_line_end_pos(s, i);
}

/// A later find shadows an earlier one.
pub open spec fn shadow(a: Option<u64>, b: Option<u64>) -> Option<u64> {
    match a {
        Option::Some(v) => Option::Some(v),
        Option::None => b,
    }
}

/// Scan a text line by line for the last line whose first token is `key` and
/// whose second token is numeric, and return that number.
pub fn find_field(contents: &Vec<u8>, key: &Vec<u8>) -> (r: Option<u64>)
    ensures
        r == find_last_field(contents@, 0, key@),
{
    let ghost s = contents@;
    let ghost total = find_last_field(s, 0, key@);
    let len = contents.len();
    let mut best: Option<u64> = None;
    let mut i: usize = 0;
    while i < len
        invariant
            s == contents@,
            len == s.len(),
            i <= len,
            shadow(find_last_field(s, i as int, key@), best) == total,
            total == find_last_field(s, 0, key@),
        decreases len - i,
    {
        let tokens = tokenize_line_at(contents, i);
        let here: Option<u64> = if tokens.len() >= 2 {
            proof {
                assert(token_views(tokens@)[0] == tokens@[0]@);
                assert(token_views(tokens@)[1] == tokens@[1]@);
            }
            if bytes_eq(&tokens[0], key) {
                parse_token_u64(&tokens[1])
            } else {
                None
            }
        } else {
            None
        };
        if here.is_some() {
            best = here;
        }
        // Advance to the start of the next line.
        let mut j = i;
        while j < len && contents[j] != 10
            invariant
                s == contents@,
                len == s.len(),
                i <= j <= len,
                line_end_pos(s, i as int) == line_end_pos(s, j as int),
            decreases len - j,
        {
            j = j + 1;
        }
        proof {
            assert(line_end_pos(s, j as int) == j);
        }
        if j == len {
            i = len;
        } else {
            i = j + 1;
        }
    }
    best
}

/// RAM usage (percent, fixed-point) from total and available kilobytes: the
/// used share of the total, zero when the total is zero.
pub open spec fn spec_ram_usage(total_kb: u64, available_kb: u64) -> u64 {
    if total_kb == 0 {
        0
    } else {
        let used: u64 = if total_kb >= available_kb {
            (total_kb - available_kb) as u64
        } else {
            0
        };
        ((used * 1_000_000) as int / total_kb as int) as u64
    }
}

/// RAM usage (percent, fixed-point) from the kernel's memory statistics
/// text: the used share of `MemTotal:`, with `MemAvailable:` free.
pub fn ram_usage_from_meminfo(contents: &Vec<u8>) -> (r: Option<u64>)
    ensures
        ({
            let total = find_last_field(contents@, 0, mem_total_key());
            let avail = find_last_field(contents@, 0, mem_available_key());
            match (total, avail) {
                (Option::Some(t), Option::Some(a)) => r == Option::Some(spec_ram_usage(t, a)),
                _ => r is None,
            }
        }),
{
    let mut total_key: Vec<u8> = Vec::new();
    total_key.push(77);
    total_key.push(101);
    total_key.push(109);
    total_key.push(84);
    total_key.push(111);
    total_key.push(116);
    total_key.push(97);
    total_key.push(108);
    total_key.push(58);
    let mut avail_key: Vec<u8> = Vec::new();
    avail_key.push(77);
    avail_key.push(101);
    avail_key.push(109);
    avail_key.push(65);
    avail_key.push(118);
    avail_key.push(97);
    avail_key.push(105);
    avail_key.push(108);
    avail_key.push(97);
    avail_key.push(98);
    avail_key.push(108);
    avail_key.push(101);
    avail_key.push(58);
    proof {
        assert(total_key@ =~= mem_total_key());
        assert(avail_key@ =~= mem_available_key());
    }
    let total = find_field(contents, &total_key);
    let avail = find_field(contents, &avail_key);
    match (total, avail) {
        (Some(t), Some(a)) => {
            let used: u64 = if t >= a {
                t - a
            } else {
                0
            };
            if t == 0 {
                Some(0)
            } else {
                let scaled: u128 = (used as u128) * 1_000_000 / (t as u128);
                proof {
                    assert(scaled <= 1_000_000) by {
                        vstd::arithmetic::div_mod::lemma_div_is_ordered(
                            used as int * 1_000_000,
                            t as int * 1_000_000,
                            t as int,
                        );
                        vstd::arithmetic::div_mod::lemma_div_by_multiple(1_000_000, t as int);
                    }
                }
                Some(scaled as u64)
            }
        },
        _ => None,
    }
}

} // verus!
