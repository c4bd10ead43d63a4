//! The durable log-record format: one JSON object per line, with fields
//! `resource`, `ts_start`, `ts_end`, `duration_secs`, `peak`, `threshold`
//! and `top`. Rendering is canonical; the parser accepts exactly the
//! canonical form, so every record this crate writes is read back
//! byte-for-byte and field-for-field.

use vstd::prelude::*;

use crate::analyzer::SpikeEvent;
use crate::config::ResourceKind;
use crate::metrics::copy_bytes;
use crate::numfmt::{
    dec_digits, fixed4_digits, fmt_fixed4, fmt_u64,
};

verus! {

/// One entry of a record's `top` array.
#[derive(Debug)]
pub struct LogProc {
    pub pid: u32,
    /// Process name, raw bytes; escaped only in the rendered record.
    pub name: Vec<u8>,
    /// CPU share, percent scaled by `VALUE_SCALE`.
    pub cpu: u64,
    pub ram_bytes: u64,
}

/// Mathematical model of a `LogProc`.
#[verifier::ext_equal]
pub ghost struct LogProcView {
    pub pid: u32,
    pub name: Seq<u8>,
    pub cpu: u64,
    pub ram_bytes: u64,
}

impl View for LogProc {
    type V = LogProcView;

    open spec fn view(&self) -> LogProcView {
        LogProcView { pid: self.pid, name: self.name@, cpu: self.cpu, ram_bytes: self.ram_bytes }
    }
}

/// One durable log record, as stored in the JSON-lines file. `peak` and
/// `threshold` are fixed-point (scaled by `VALUE_SCALE`).
#[derive(Debug)]
pub struct LogRecord {
    pub resource: ResourceKind,
    pub ts_start: u64,
    pub ts_end: u64,
    pub duration_secs: u64,
    pub peak: u64,
    pub threshold: u64,
    pub top: Vec<LogProc>,
}

/// Mathematical model of a `LogRecord`.
#[verifier::ext_equal]
pub ghost struct LogRecordView {
    pub resource: ResourceKind,
    pub ts_start: u64,
    pub ts_end: u64,
    pub duration_secs: u64,
    pub peak: u64,
    pub threshold: u64,
    pub top: Seq<LogProcView>,
}

impl View for LogRecord {
    type V = LogRecordView;

    open spec fn view(&self) -> LogRecordView {
        LogRecordView {
            resource: self.resource,
            ts_start: self.ts_start,
            ts_end: self.ts_end,
            duration_secs: self.duration_secs,
            peak: self.peak,
            threshold: self.threshold,
            top: Seq::new(self.top@.len(), |i: int| self.top@[i]@),
        }
    }
}

/// The models of a vector of `top` entries.
pub open spec fn proc_views(ps: Seq<LogProc>) -> Seq<LogProcView> {
    Seq::new(ps.len(), |i: int| ps[i]@)
}

/// The record a spike event is persisted as. The duration is measured end
/// minus start, clamped to zero if the clock moved backward.
pub fn event_to_record(event: &SpikeEvent) -> (r: LogRecord)
    ensures
        r@.resource == event@.resource,
        r@.ts_start == event@.timestamp_start,
        r@.ts_end == event@.timestamp_end,
        r@.duration_secs == crate::analyzer::spec_duration_secs(
            event@.timestamp_start,
            event@.timestamp_end,
        ),
        r@.peak == event@.peak_value,
        r@.threshold == event@.threshold,
        r@.top.len() == event@.top_processes.len(),
        forall|i: int| 0 <= i < event@.top_processes.len() ==> {
            &&& (#[trigger] r@.top[i]).pid == event@.top_processes[i].pid
            &&& r@.top[i].name == event@.top_processes[i].name
            &&& r@.top[i].cpu == event@.top_processes[i].cpu_percent
            &&& r@.top[i].ram_bytes == event@.top_processes[i].ram_bytes
        },
{
    let duration_secs: u64 = if event.timestamp_end >= event.timestamp_start {
        event.timestamp_end - event.timestamp_start
    } else {
        0
    };
    let mut top: Vec<LogProc> = Vec::new();
    let mut i: usize = 0;
    while i < event.top_processes.len()
        invariant
            i <= event.top_processes@.len(),
            top@.len() == i,
            forall|j: int| 0 <= j < i ==> {
                &&& (#[trigger] top@[j])@.pid == event.top_processes@[j]@.pid
                &&& top@[j]@.name == event.top_processes@[j]@.name
                &&& top@[j]@.cpu == event.top_processes@[j]@.cpu_percent
                &&& top@[j]@.ram_bytes == event.top_processes@[j]@.ram_bytes
            },
        decreases event.top_processes@.len() - i,
    {
        let p = &event.top_processes[i];
        top.push(LogProc {
            pid: p.pid,
            name: copy_bytes(&p.name),
            cpu: p.cpu_percent,
            ram_bytes: p.ram_bytes,
        });
        i += 1;
    }
    LogRecord {
        resource: event.resource,
        ts_start: event.timestamp_start,
        ts_end: event.timestamp_end,
        duration_secs,
        peak: event.peak_value,
        threshold: event.threshold,
        top,
    }
}

/// How one byte of a process name is written inside a JSON string: backslash
/// and double quote get a backslash before them, all else passes through.
pub open spec fn escape_byte(b: u8) -> Seq<u8> {
    if b == 92 || b == 34 {
        seq![92u8, b]
    } else {
        seq![b]
    }
}

/// A whole name, escaped byte by byte.
pub open spec fn escape_bytes(s: Seq<u8>) -> Seq<u8>
    decreases s.len(),
{
    if s.len() == 0 {
        Seq::empty()
    } else {
        escape_byte(s[0]) + escape_bytes(s.skip(1))
    }
}

/// Escaping distributes over concatenation.
pub proof fn lemma_escape_append(s1: Seq<u8>, s2: Seq<u8>)
    ensures
        escape_bytes(s1 + s2) == escape_bytes(s1) + escape_bytes(s2),
    decreases s1.len(),
{
    if s1.len() == 0 {
        assert(s1 + s2 =~= s2);
        assert(escape_bytes(s1) + escape_bytes(s2) =~= escape_bytes(s2));
    } else {
        assert((s1 + s2)[0] == s1[0]);
        assert((s1 + s2).skip(1) =~= s1.skip(1) + s2);
        lemma_escape_append(s1.skip(1), s2);
        assert(escape_byte(s1[0]) + (escape_bytes(s1.skip(1)) + escape_bytes(s2))
            =~= (escape_byte(s1[0]) + escape_bytes(s1.skip(1))) + escape_bytes(s2));
    }
}

/// Escaping one more byte appends its escape.
pub proof fn lemma_escape_snoc(s: Seq<u8>, i: int)
    requires
        0 <= i < s.len(),
    ensures
        escape_bytes(s.take(i + 1)) == escape_bytes(s.take(i)) + escape_byte(s[i]),
{
    reveal_with_fuel(escape_bytes, 2);
    assert(s.take(i + 1) =~= s.take(i) + seq![s[i]]);
    lemma_escape_append(s.take(i), seq![s[i]]);
    assert(seq![s[i]].skip(1) =~= Seq::<u8>::empty());
    assert(escape_bytes(seq![s[i]]) =~= escape_byte(s[i]));
}

/// Escape a name for embedding in a JSON string: backslash before `\\` and
/// `"`, everything else unchanged.
pub fn escape_string(s: &Vec<u8>) -> (r: Vec<u8>)
    ensures
        r@ == escape_bytes(s@),
{
    let mut out: Vec<u8> = Vec::new();
    let mut i: usize = 0;
    while i < s.len()
        invariant
            i <= s@.len(),
            out@ == escape_bytes(s@.take(i as int)),
        decreases s@.len() - i,
    {
        let b = s[i];
        if b == 92 || b == 34 {
            out.push(92);
            out.push(b);
        } else {
            out.push(b);
        }
        proof {
            lemma_escape_snoc(s@, i as int);
            assert(out@ =~= escape_bytes(s@.take(i as int)) + escape_byte(s@[i as int]));
        }
        i += 1;
    }
    proof {
        assert(s@.take(s@.len() as int) =~= s@);
    }
    out
}

/// The literal `{\"resource\":\"` of the record grammar.
pub open spec fn lit_obj_resource() -> Seq<u8> {
    seq![123u8, 34u8, 114u8, 101u8, 115u8, 111u8, 117u8, 114u8, 99u8, 101u8, 34u8, 58u8, 34u8]
}

/// Append the literal `{\"resource\":\"`.
pub(crate) fn push_lit_obj_resource(out: &mut Vec<u8>)
    ensures
        final(out)@ == old(out)@ + lit_obj_resource(),
{
    out.push(123);
    out.push(34);
    out.push(114);
    out.push(101);
    out.push(115);
    out.push(111);
    out.push(117);
    out.push(114);
    out.push(99);
    out.push(101);
    out.push(34);
    out.push(58);
    out.push(34);
    proof {
        assert(out@ =~= old(out)@ + lit_obj_resource());
    }
}

/// The literal `{\"resource\":\"` as a vector.
pub(crate) fn build_lit_obj_resource() -> (r: Vec<u8>)
    ensures
        r@ == lit_obj_resource(),
{
    let mut v: Vec<u8> = Vec::new();
    push_lit_obj_resource(&mut v);
    proof {
        assert(v@ =~= lit_obj_resource());
    }
    v
}

/// The literal `\",\"ts_start\":` of the record grammar.
pub open spec fn lit_key_ts_start() -> Seq<u8> {
    seq![34u8, 44u8, 34u8, 116u8, 115u8, 95u8, 115u8, 116u8, 97u8, 114u8, 116u8, 34u8, 58u8]
}

/// Append the literal `\",\"ts_start\":`.
pub(crate) fn push_lit_key_ts_start(out: &mut Vec<u8>)
    ensures
        final(out)@ == old(out)@ + lit_key_ts_start(),
{
    out.push(34);
    out.push(44);
    out.push(34);
    out.push(116);
    out.push(115);
    out.push(95);
    out.push(115);
    out.push(116);
    out.push(97);
    out.push(114);
    out.push(116);
    out.push(34);
    out.push(58);
    proof {
        assert(out@ =~= old(out)@ + lit_key_ts_start());
    }
}

/// The literal `\",\"ts_start\":` as a vector.
pub(crate) fn build_lit_key_ts_start() -> (r: Vec<u8>)
    ensures
        r@ == lit_key_ts_start(),
{
    let mut v: Vec<u8> = Vec::new();
    push_lit_key_ts_start(&mut v);
    proof {
        assert(v@ =~= lit_key_ts_start());
    }
    v
}

/// The literal `,\"ts_end\":` of the record grammar.
pub open spec fn lit_key_ts_end() -> Seq<u8> {
    seq![44u8, 34u8, 116u8, 115u8, 95u8, 101u8, 110u8, 100u8, 34u8, 58u8]
}

/// Append the literal `,\"ts_end\":`.
pub(crate) fn push_lit_key_ts_end(out: &mut Vec<u8>)
    ensures
        final(out)@ == old(out)@ + lit_key_ts_end(),
{
    out.push(44);
    out.push(34);
    out.push(116);
    out.push(115);
    out.push(95);
    out.push(101);
    out.push(110);
    out.push(100);
    out.push(34);
    out.push(58);
    proof {
        assert(out@ =~= old(out)@ + lit_key_ts_end());
    }
}

/// The literal `,\"ts_end\":` as a vector.
pub(crate) fn build_lit_key_ts_end() -> (r: Vec<u8>)
    ensures
        r@ == lit_key_ts_end(),
{
    let mut v: Vec<u8> = Vec::new();
    push_lit_key_ts_end(&mut v);
    proof {
        assert(v@ =~= lit_key_ts_end());
    }
    v
}

/// The literal `,\"duration_secs\":` of the record grammar.
pub open spec fn lit_key_duration() -> Seq<u8> {
    seq![44u8, 34u8, 100u8, 117u8, 114u8, 97u8, 116u8, 105u8, 111u8, 110u8, 95u8, 115u8, 101u8, 99u8, 115u8, 34u8, 58u8]
}

/// Append the literal `,\"duration_secs\":`.
pub(crate) fn push_lit_key_duration(out: &mut Vec<u8>)
    ensures
        final(out)@ == old(out)@ + lit_key_duration(),
{
    out.push(44);
    out.push(34);
    out.push(100);
    out.push(117);
    out.push(114);
    out.push(97);
    out.push(116);
    out.push(105);
    out.push(111);
    out.push(110);
    out.push(95);
    out.push(115);
    out.push(101);
    out.push(99);
    out.push(115);
    out.push(34);
    out.push(58);
    proof {
        assert(out@ =~= old(out)@ + lit_key_duration());
    }
}

/// The literal `,\"duration_secs\":` as a vector.
pub(crate) fn build_lit_key_duration() -> (r: Vec<u8>)
    ensures
        r@ == lit_key_duration(),
{
    let mut v: Vec<u8> = Vec::new();
    push_lit_key_duration(&mut v);
    proof {
        assert(v@ =~= lit_key_duration());
    }
    v
}

/// The literal `,\"peak\":` of the record grammar.
pub open spec fn lit_key_peak() -> Seq<u8> {
    seq![44u8, 34u8, 112u8, 101u8, 97u8, 107u8, 34u8, 58u8]
}

/// Append the literal `,\"peak\":`.
pub(crate) fn push_lit_key_peak(out: &mut Vec<u8>)
    ensures
        final(out)@ == old(out)@ + lit_key_peak(),
{
    out.push(44);
    out.push(34);
    out.push(112);
    out.push(101);
    out.push(97);
    out.push(107);
    out.push(34);
    out.push(58);
    proof {
        assert(out@ =~= old(out)@ + lit_key_peak());
    }
}

/// The literal `,\"peak\":` as a vector.
pub(crate) fn build_lit_key_peak() -> (r: Vec<u8>)
    ensures
        r@ == lit_key_peak(),
{
    let mut v: Vec<u8> = Vec::new();
    push_lit_key_peak(&mut v);
    proof {
        assert(v@ =~= lit_key_peak());
    }
    v
}

/// The literal `,\"threshold\":` of the record grammar.
pub open spec fn lit_key_threshold() -> Seq<u8> {
    seq![44u8, 34u8, 116u8, 104u8, 114u8, 101u8, 115u8, 104u8, 111u8, 108u8, 100u8, 34u8, 58u8]
}

/// Append the literal `,\"threshold\":`.
pub(crate) fn push_lit_key_threshold(out: &mut Vec<u8>)
    ensures
        final(out)@ == old(out)@ + lit_key_threshold(),
{
    out.push(44);
    out.push(34);
    out.push(116);
    out.push(104);
    out.push(114);
    out.push(101);
    out.push(115);
    out.push(104);
    out.push(111);
    out.push(108);
    out.push(100);
    out.push(34);
    out.push(58);
    proof {
        assert(out@ =~= old(out)@ + lit_key_threshold());
    }
}

/// The literal `,\"threshold\":` as a vector.
pub(crate) fn build_lit_key_threshold() -> (r: Vec<u8>)
    ensures
        r@ == lit_key_threshold(),
{
    let mut v: Vec<u8> = Vec::new();
    push_lit_key_threshold(&mut v);
    proof {
        assert(v@ =~= lit_key_threshold());
    }
    v
}

/// The literal `,\"top\":[` of the record grammar.
pub open spec fn lit_key_top() -> Seq<u8> {
    seq![44u8, 34u8, 116u8, 111u8, 112u8, 34u8, 58u8, 91u8]
}

/// Append the literal `,\"top\":[`.
pub(crate) fn push_lit_key_top(out: &mut Vec<u8>)
    ensures
        final(out)@ == old(out)@ + lit_key_top(),
{
    out.push(44);
    out.push(34);
    out.push(116);
    out.push(111);
    out.push(112);
    out.push(34);
    out.push(58);
    out.push(91);
    proof {
        assert(out@ =~= old(out)@ + lit_key_top());
    }
}

/// The literal `,\"top\":[` as a vector.
pub(crate) fn build_lit_key_top() -> (r: Vec<u8>)
    ensures
        r@ == lit_key_top(),
{
    let mut v: Vec<u8> = Vec::new();
    push_lit_key_top(&mut v);
    proof {
        assert(v@ =~= lit_key_top());
    }
    v
}

/// The literal `]}` of the record grammar.
pub open spec fn lit_rec_close() -> Seq<u8> {
    seq![93u8, 125u8]
}

/// Append the literal `]}`.
pub(crate) fn push_lit_rec_close(out: &mut Vec<u8>)
    ensures
        final(out)@ == old(out)@ + lit_rec_close(),
{
    out.push(93);
    out.push(125);
    proof {
        assert(out@ =~= old(out)@ + lit_rec_close());
    }
}

/// The literal `]}` as a vector.
pub(crate) fn build_lit_rec_close() -> (r: Vec<u8>)
    ensures
        r@ == lit_rec_close(),
{
    let mut v: Vec<u8> = Vec::new();
    push_lit_rec_close(&mut v);
    proof {
        assert(v@ =~= lit_rec_close());
    }
    v
}

/// The literal `{\"pid\":` of the record grammar.
pub open spec fn lit_proc_open() -> Seq<u8> {
    seq![123u8, 34u8, 112u8, 105u8, 100u8, 34u8, 58u8]
}

/// Append the literal `{\"pid\":`.
pub(crate) fn push_lit_proc_open(out: &mut Vec<u8>)
    ensures
        final(out)@ == old(out)@ + lit_proc_open(),
{
    out.push(123);
    out.push(34);
    out.push(112);
    out.push(105);
    out.push(100);
    out.push(34);
    out.push(58);
    proof {
        assert(out@ =~= old(out)@ + lit_proc_open());
    }
}

/// The literal `{\"pid\":` as a vector.
pub(crate) fn build_lit_proc_open() -> (r: Vec<u8>)
    ensures
        r@ == lit_proc_open(),
{
    let mut v: Vec<u8> = Vec::new();
    push_lit_proc_open(&mut v);
    proof {
        assert(v@ =~= lit_proc_open());
    }
    v
}

/// The literal `,\"name\":\"` of the record grammar.
pub open spec fn lit_key_name() -> Seq<u8> {
    seq![44u8, 34u8, 110u8, 97u8, 109u8, 101u8, 34u8, 58u8, 34u8]
}

/// Append the literal `,\"name\":\"`.
pub(crate) fn push_lit_key_name(out: &mut Vec<u8>)
    ensures
        final(out)@ == old(out)@ + lit_key_name(),
{
    out.push(44);
    out.push(34);
    out.push(110);
    out.push(97);
    out.push(109);
    out.push(101);
    out.push(34);
    out.push(58);
    out.push(34);
    proof {
        assert(out@ =~= old(out)@ + lit_key_name());
    }
}

/// The literal `,\"name\":\"` as a vector.
pub(crate) fn build_lit_key_name() -> (r: Vec<u8>)
    ensures
        r@ == lit_key_name(),
{
    let mut v: Vec<u8> = Vec::new();
    push_lit_key_name(&mut v);
    proof {
        assert(v@ =~= lit_key_name());
    }
    v
}

/// The literal `\",\"cpu\":` of the record grammar.
pub open spec fn lit_key_cpu() -> Seq<u8> {
    seq![34u8, 44u8, 34u8, 99u8, 112u8, 117u8, 34u8, 58u8]
}

/// Append the literal `\",\"cpu\":`.
pub(crate) fn push_lit_key_cpu(out: &mut Vec<u8>)
    ensures
        final(out)@ == old(out)@ + lit_key_cpu(),
{
    out.push(34);
    out.push(44);
    out.push(34);
    out.push(99);
    out.push(112);
    out.push(117);
    out.push(34);
    out.push(58);
    proof {
        assert(out@ =~= old(out)@ + lit_key_cpu());
    }
}

/// The literal `\",\"cpu\":` as a vector.
pub(crate) fn build_lit_key_cpu() -> (r: Vec<u8>)
    ensures
        r@ == lit_key_cpu(),
{
    let mut v: Vec<u8> = Vec::new();
    push_lit_key_cpu(&mut v);
    proof {
        assert(v@ =~= lit_key_cpu());
    }
    v
}

/// The literal `,\"ram_bytes\":` of the record grammar.
pub open spec fn lit_key_ram() -> Seq<u8> {
    seq![44u8, 34u8, 114u8, 97u8, 109u8, 95u8, 98u8, 121u8, 116u8, 101u8, 115u8, 34u8, 58u8]
}

/// Append the literal `,\"ram_bytes\":`.
pub(crate) fn push_lit_key_ram(out: &mut Vec<u8>)
    ensures
        final(out)@ == old(out)@ + lit_key_ram(),
{
    out.push(44);
    out.push(34);
    out.push(114);
    out.push(97);
    out.push(109);
    out.push(95);
    out.push(98);
    out.push(121);
    out.push(116);
    out.push(101);
    out.push(115);
    out.push(34);
    out.push(58);
    proof {
        assert(out@ =~= old(out)@ + lit_key_ram());
    }
}

/// The literal `,\"ram_bytes\":` as a vector.
pub(crate) fn build_lit_key_ram() -> (r: Vec<u8>)
    ensures
        r@ == lit_key_ram(),
{
    let mut v: Vec<u8> = Vec::new();
    push_lit_key_ram(&mut v);
    proof {
        assert(v@ =~= lit_key_ram());
    }
    v
}

/// The literal `}` of the record grammar.
pub open spec fn lit_proc_close() -> Seq<u8> {
    seq![125u8]
}

/// Append the literal `}`.
pub(crate) fn push_lit_proc_close(out: &mut Vec<u8>)
    ensures
        final(out)@ == old(out)@ + lit_proc_close(),
{
    out.push(125);
    proof {
        assert(out@ =~= old(out)@ + lit_proc_close());
    }
}

/// The literal `}` as a vector.
pub(crate) fn build_lit_proc_close() -> (r: Vec<u8>)
    ensures
        r@ == lit_proc_close(),
{
    let mut v: Vec<u8> = Vec::new();
    push_lit_proc_close(&mut v);
    proof {
        assert(v@ =~= lit_proc_close());
    }
    v
}

/// The literal `,` of the record grammar.
pub open spec fn lit_comma() -> Seq<u8> {
    seq![44u8]
}

/// Append the literal `,`.
pub(crate) fn push_lit_comma(out: &mut Vec<u8>)
    ensures
        final(out)@ == old(out)@ + lit_comma(),
{
    out.push(44);
    proof {
        assert(out@ =~= old(out)@ + lit_comma());
    }
}

/// The literal `,` as a vector.
pub(crate) fn build_lit_comma() -> (r: Vec<u8>)
    ensures
        r@ == lit_comma(),
{
    let mut v: Vec<u8> = Vec::new();
    push_lit_comma(&mut v);
    proof {
        assert(v@ =~= lit_comma());
    }
    v
}

/// The canonical rendering of one `top` entry.
pub open spec fn render_proc(p: LogProcView) -> Seq<u8> {
    lit_proc_open() + dec_digits(p.pid as nat) + lit_key_name() + escape_bytes(p.name)
        + lit_key_cpu() + fixed4_digits(p.cpu) + lit_key_ram() + dec_digits(p.ram_bytes as nat)
        + lit_proc_close()
}

/// The canonical rendering of the entries after the first: each preceded by
/// a comma.
pub open spec fn render_procs_rest(ps: Seq<LogProcView>) -> Seq<u8>
    decreases ps.len(),
{
    if ps.len() == 0 {
        Seq::empty()
    } else {
        lit_comma() + render_proc(ps[0]) + render_procs_rest(ps.skip(1))
    }
}

/// The canonical rendering of a whole `top` array's contents.
pub open spec fn render_procs(ps: Seq<LogProcView>) -> Seq<u8> {
    if ps.len() == 0 {
        Seq::empty()
    } else {
        render_proc(ps[0]) + render_procs_rest(ps.skip(1))
    }
}

/// The resource word of a record: `cpu`, `ram` or `io`.
pub open spec fn resource_word(kind: ResourceKind) -> Seq<u8> {
    match kind {
        ResourceKind::Cpu => seq![99u8, 112u8, 117u8],
        ResourceKind::Ram => seq![114u8, 97u8, 109u8],
        ResourceKind::Io => seq![105u8, 111u8],
    }
}

/// The canonical rendering of a record's scalar fields, up to and including
/// the opening of the `top` array.
pub open spec fn render_record_prefix(
    resource: ResourceKind,
    ts_start: u64,
    ts_end: u64,
    duration_secs: u64,
    peak: u64,
    threshold: u64,
) -> Seq<u8> {
    lit_obj_resource() + resource_word(resource) + lit_key_ts_start()
        + dec_digits(ts_start as nat) + lit_key_ts_end() + dec_digits(ts_end as nat)
        + lit_key_duration() + dec_digits(duration_secs as nat) + lit_key_peak()
        + fixed4_digits(peak) + lit_key_threshold() + fixed4_digits(threshold)
        + lit_key_top()
}

/// The canonical rendering of a whole record (one line, without the newline).
pub open spec fn render_record(r: LogRecordView) -> Seq<u8> {
    render_record_prefix(r.resource, r.ts_start, r.ts_end, r.duration_secs, r.peak, r.threshold)
        + render_procs(r.top) + lit_rec_close()
}

/// Append an owned piece to the output.
fn push_all(out: &mut Vec<u8>, piece: Vec<u8>)
    ensures
        final(out)@ == old(out)@ + piece@,
{
    let mut p = piece;
    out.append(&mut p);
}

/// Write the resource word.
fn push_resource_word(out: &mut Vec<u8>, kind: ResourceKind)
    ensures
        final(out)@ == old(out)@ + resource_word(kind),
{
    match kind {
        ResourceKind::Cpu => {
            out.push(99);
            out.push(112);
            out.push(117);
        },
        ResourceKind::Ram => {
            out.push(114);
            out.push(97);
            out.push(109);
        },
        ResourceKind::Io => {
            out.push(105);
            out.push(111);
        },
    }
    proof {
        assert(out@ =~= old(out)@ + resource_word(kind));
    }
}

/// Write one `top` entry.
fn push_proc(out: &mut Vec<u8>, p: &LogProc)
    ensures
        final(out)@ == old(out)@ + render_proc(p@),
{
    push_lit_proc_open(out);
    push_all(out, fmt_u64(p.pid as u64));
    push_lit_key_name(out);
    push_all(out, escape_string(&p.name));
    push_lit_key_cpu(out);
    push_all(out, fmt_fixed4(p.cpu));
    push_lit_key_ram(out);
    push_all(out, fmt_u64(p.ram_bytes));
    push_lit_proc_close(out);
    proof {
        assert(out@ =~= old(out)@ + render_proc(p@));
    }
}

/// Render a record as its canonical JSON line (without the newline).
pub fn render_record_line(rec: &LogRecord) -> (r: Vec<u8>)
    ensures
        r@ == render_record(rec@),
{
    let mut out: Vec<u8> = Vec::new();
    push_lit_obj_resource(&mut out);
    push_resource_word(&mut out, rec.resource);
    push_lit_key_ts_start(&mut out);
    push_all(&mut out, fmt_u64(rec.ts_start));
    push_lit_key_ts_end(&mut out);
    push_all(&mut out, fmt_u64(rec.ts_end));
    push_lit_key_duration(&mut out);
    push_all(&mut out, fmt_u64(rec.duration_secs));
    push_lit_key_peak(&mut out);
    push_all(&mut out, fmt_fixed4(rec.peak));
    push_lit_key_threshold(&mut out);
    push_all(&mut out, fmt_fixed4(rec.threshold));
    push_lit_key_top(&mut out);

    let ghost before_procs = out@;
    let ghost pv = proc_views(rec.top@);
    let n = rec.top.len();
    if n > 0 {
        push_proc(&mut out, &rec.top[0]);
        proof {
            assert(pv.subrange(1, 1) =~= Seq::<LogProcView>::empty());
            assert(rec.top@[0]@ == pv[0]);
        }
        let mut i: usize = 1;
        while i < n
            invariant
                1 <= i <= n,
                n == rec.top@.len(),
                pv == proc_views(rec.top@),
                out@ == before_procs + render_proc(pv[0])
                    + render_procs_rest(pv.subrange(1, i as int)),
            decreases n - i,
        {
            push_lit_comma(&mut out);
            push_proc(&mut out, &rec.top[i]);
            proof {
                lemma_render_rest_snoc(pv, 1, i as int);
                assert(rec.top@[i as int]@ == pv[i as int]);
                assert(out@ =~= before_procs + render_proc(pv[0])
                    + render_procs_rest(pv.subrange(1, i as int + 1)));
            }
            i += 1;
        }
        proof {
            assert(pv.subrange(1, n as int) =~= pv.skip(1));
            assert(out@ =~= before_procs + render_procs(pv));
        }
    }
    push_lit_rec_close(&mut out);
    proof {
        assert(rec@.top =~= pv);
        assert(out@ =~= render_record(rec@));
    }
    out
}

/// Rendering the tail entries one further: the next entry appends its comma
/// and body.
pub proof fn lemma_render_rest_snoc(ps: Seq<LogProcView>, from: int, i: int)
    requires
        0 <= from <= i < ps.len(),
    ensures
        render_procs_rest(ps.subrange(from, i + 1))
            == render_procs_rest(ps.subrange(from, i)) + lit_comma() + render_proc(ps[i]),
    decreases i - from,
{
    reveal_with_fuel(render_procs_rest, 2);
    if from == i {
        assert(ps.subrange(from, i) =~= Seq::<LogProcView>::empty());
        let single = ps.subrange(from, i + 1);
        assert(single.len() == 1 && single[0] == ps[i]);
        assert(single.skip(1) =~= Seq::<LogProcView>::empty());
        assert(render_procs_rest(single)
            =~= Seq::<u8>::empty() + lit_comma() + render_proc(ps[i]));
    } else {
        lemma_render_rest_snoc(ps, from + 1, i);
        let a = ps.subrange(from, i + 1);
        let b = ps.subrange(from, i);
        assert(a[0] == ps[from] && b[0] == ps[from]);
        assert(a.skip(1) =~= ps.subrange(from + 1, i + 1));
        assert(b.skip(1) =~= ps.subrange(from + 1, i));
        assert(lit_comma() + render_proc(ps[from])
                + (render_procs_rest(ps.subrange(from + 1, i)) + lit_comma() + render_proc(ps[i]))
            =~= (lit_comma() + render_proc(ps[from]) + render_procs_rest(ps.subrange(from + 1, i)))
                + lit_comma() + render_proc(ps[i]));
    }
}

} // verus!
