use resource_monitor::analyzer::SpikeEvent;
use resource_monitor::config::ResourceKind;
use resource_monitor::numfmt::{fmt_fixed4, fmt_u64, format_time_secs};
use resource_monitor::parse::parse_record;
use resource_monitor::record::{escape_string, event_to_record, render_record_line, LogProc, LogRecord};

fn sample_record() -> LogRecord {
    LogRecord {
        resource: ResourceKind::Cpu,
        ts_start: 1700000100,
        ts_end: 1700000110,
        duration_secs: 10,
        peak: 923_400,
        threshold: 800_000,
        top: vec![
            LogProc { pid: 42, name: b"reader".to_vec(), cpu: 120_000, ram_bytes: 4096 },
            LogProc { pid: 7, name: b"a\"b\\c".to_vec(), cpu: 5_500, ram_bytes: 123 },
        ],
    }
}

#[test]
fn render_matches_expected_line() {
    let line = render_record_line(&sample_record());
    let expected = "{\"resource\":\"cpu\",\"ts_start\":1700000100,\"ts_end\":1700000110,\
         \"duration_secs\":10,\"peak\":92.3400,\"threshold\":80.0000,\"top\":[\
         {\"pid\":42,\"name\":\"reader\",\"cpu\":12.0000,\"ram_bytes\":4096},\
         {\"pid\":7,\"name\":\"a\\\"b\\\\c\",\"cpu\":0.5500,\"ram_bytes\":123}]}";
    assert_eq!(String::from_utf8(line).unwrap(), expected);
}

#[test]
fn record_round_trips() {
    let rec = sample_record();
    let line = render_record_line(&rec);
    let back = parse_record(&line).expect("a rendered record parses");
    assert_eq!(back.resource, rec.resource);
    assert_eq!(back.ts_start, rec.ts_start);
    assert_eq!(back.ts_end, rec.ts_end);
    assert_eq!(back.duration_secs, rec.duration_secs);
    assert_eq!(back.peak, rec.peak);
    assert_eq!(back.threshold, rec.threshold);
    assert_eq!(back.top.len(), rec.top.len());
    for (a, b) in back.top.iter().zip(rec.top.iter()) {
        assert_eq!(a.pid, b.pid);
        assert_eq!(a.name, b.name);
        assert_eq!(a.cpu, b.cpu);
        assert_eq!(a.ram_bytes, b.ram_bytes);
    }
}

#[test]
fn empty_top_round_trips() {
    let rec = LogRecord {
        resource: ResourceKind::Io,
        ts_start: 0,
        ts_end: 0,
        duration_secs: 0,
        peak: 0,
        threshold: 0,
        top: Vec::new(),
    };
    let line = render_record_line(&rec);
    assert_eq!(
        String::from_utf8(line.clone()).unwrap(),
        "{\"resource\":\"io\",\"ts_start\":0,\"ts_end\":0,\"duration_secs\":0,\
         \"peak\":0.0000,\"threshold\":0.0000,\"top\":[]}"
    );
    let back = parse_record(&line).expect("parses");
    assert_eq!(back.resource, ResourceKind::Io);
    assert!(back.top.is_empty());
}

#[test]
fn extreme_values_round_trip() {
    let rec = LogRecord {
        resource: ResourceKind::Ram,
        ts_start: u64::MAX,
        ts_end: u64::MAX,
        duration_secs: 0,
        peak: u64::MAX,
        threshold: 1,
        top: vec![LogProc { pid: u32::MAX, name: Vec::new(), cpu: u64::MAX, ram_bytes: u64::MAX }],
    };
    let line = render_record_line(&rec);
    let back = parse_record(&line).expect("parses");
    assert_eq!(back.ts_start, u64::MAX);
    assert_eq!(back.peak, u64::MAX);
    assert_eq!(back.top[0].pid, u32::MAX);
    assert_eq!(back.top[0].ram_bytes, u64::MAX);
    assert_eq!(back.top[0].name, Vec::<u8>::new());
}

#[test]
fn malformed_lines_rejected() {
    let cases: &[&str] = &[
        "",
        "{}",
        "{\"resource\":\"disk\",\"ts_start\":0,\"ts_end\":0,\"duration_secs\":0,\"peak\":0.0000,\"threshold\":0.0000,\"top\":[]}",
        // Missing fraction digits.
        "{\"resource\":\"cpu\",\"ts_start\":0,\"ts_end\":0,\"duration_secs\":0,\"peak\":0.0,\"threshold\":0.0000,\"top\":[]}",
        // Leading zero in a number.
        "{\"resource\":\"cpu\",\"ts_start\":01,\"ts_end\":0,\"duration_secs\":0,\"peak\":0.0000,\"threshold\":0.0000,\"top\":[]}",
        // Number out of range.
        "{\"resource\":\"cpu\",\"ts_start\":18446744073709551616,\"ts_end\":0,\"duration_secs\":0,\"peak\":0.0000,\"threshold\":0.0000,\"top\":[]}",
        // Truncated.
        "{\"resource\":\"cpu\",\"ts_start\":0,\"ts_end\":0,\"duration_secs\":0,\"peak\":0.0000,\"threshold\":0.0000,\"top\":[",
        // Trailing garbage.
        "{\"resource\":\"cpu\",\"ts_start\":0,\"ts_end\":0,\"duration_secs\":0,\"peak\":0.0000,\"threshold\":0.0000,\"top\":[]} ",
        // Trailing comma in the top array.
        "{\"resource\":\"cpu\",\"ts_start\":0,\"ts_end\":0,\"duration_secs\":0,\"peak\":0.0000,\"threshold\":0.0000,\"top\":[{\"pid\":1,\"name\":\"x\",\"cpu\":0.0000,\"ram_bytes\":0},]}",
        // Unescaped quote would end the name early; a lone backslash is invalid.
        "{\"resource\":\"cpu\",\"ts_start\":0,\"ts_end\":0,\"duration_secs\":0,\"peak\":0.0000,\"threshold\":0.0000,\"top\":[{\"pid\":1,\"name\":\"a\\x\",\"cpu\":0.0000,\"ram_bytes\":0}]}",
    ];
    for case in cases {
        let bytes = case.as_bytes().to_vec();
        assert!(parse_record(&bytes).is_none(), "accepted: {case}");
    }
}

#[test]
fn escape_string_escapes_quotes_and_backslashes() {
    let escaped = escape_string(&b"a\"b\\c".to_vec());
    assert_eq!(escaped, b"a\\\"b\\\\c".to_vec());
    let plain = escape_string(&b"plain name".to_vec());
    assert_eq!(plain, b"plain name".to_vec());
    let empty = escape_string(&Vec::new());
    assert_eq!(empty, Vec::<u8>::new());
}

#[test]
fn number_formatting_is_canonical() {
    assert_eq!(fmt_u64(0), b"0".to_vec());
    assert_eq!(fmt_u64(9), b"9".to_vec());
    assert_eq!(fmt_u64(1700000100), b"1700000100".to_vec());
    assert_eq!(fmt_u64(u64::MAX), b"18446744073709551615".to_vec());
    assert_eq!(format_time_secs(1700000100), b"1700000100".to_vec());
    assert_eq!(fmt_fixed4(0), b"0.0000".to_vec());
    assert_eq!(fmt_fixed4(923_400), b"92.3400".to_vec());
    assert_eq!(fmt_fixed4(5_500), b"0.5500".to_vec());
    assert_eq!(fmt_fixed4(10_000), b"1.0000".to_vec());
    assert_eq!(fmt_fixed4(9_999), b"0.9999".to_vec());
}

#[test]
fn event_to_record_clamps_backward_duration() {
    let ev = SpikeEvent {
        resource: ResourceKind::Cpu,
        timestamp_start: 100,
        timestamp_end: 90,
        peak_value: 900_000,
        threshold: 800_000,
        top_processes: Vec::new(),
    };
    let rec = event_to_record(&ev);
    assert_eq!(rec.duration_secs, 0);
    assert_eq!(rec.ts_start, 100);
    assert_eq!(rec.ts_end, 90);
}

#[test]
fn event_to_record_copies_fields() {
    let ev = SpikeEvent {
        resource: ResourceKind::Ram,
        timestamp_start: 100,
        timestamp_end: 160,
        peak_value: 951_234,
        threshold: 900_000,
        top_processes: vec![resource_monitor::metrics::ProcessSample {
            pid: 3,
            name: b"proc".to_vec(),
            cpu_percent: 10_000,
            ram_bytes: 2048,
        }],
    };
    let rec = event_to_record(&ev);
    assert_eq!(rec.resource, ResourceKind::Ram);
    assert_eq!(rec.duration_secs, 60);
    assert_eq!(rec.peak, 951_234);
    assert_eq!(rec.threshold, 900_000);
    assert_eq!(rec.top.len(), 1);
    assert_eq!(rec.top[0].pid, 3);
    assert_eq!(rec.top[0].name, b"proc".to_vec());
    assert_eq!(rec.top[0].cpu, 10_000);
    assert_eq!(rec.top[0].ram_bytes, 2048);
}
