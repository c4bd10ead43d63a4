use resource_monitor::config::{
    batch_should_stop, parse_output_format, resource_unit, BatchLimit, OutputFormat,
    ResourceKind, Thresholds,
};
use resource_monitor::metrics::{
    cpu_state, parse_cpu_times, parse_token_u64, ram_usage_from_meminfo, tokenize_line_at,
    CpuTimes,
};

#[test]
fn cpu_times_from_stat_line() {
    // user nice system idle iowait irq softirq steal
    let text = b"cpu  100 20 30 400 50 6 7 8\ncpu0 1 2 3 4 5 6 7 8\n".to_vec();
    let times = parse_cpu_times(&text).expect("first line parses");
    assert_eq!(times.idle_all, 450); // idle + iowait
    assert_eq!(times.total, 450 + (100 + 20 + 30 + 6 + 7 + 8));
}

#[test]
fn cpu_times_need_four_fields_and_tag() {
    assert!(parse_cpu_times(&b"cpu 1 2 3\n".to_vec()).is_none());
    assert!(parse_cpu_times(&b"intr 1 2 3 4\n".to_vec()).is_none());
    assert!(parse_cpu_times(&Vec::new()).is_none());
    // Optional fields beyond the fourth default to zero.
    let times = parse_cpu_times(&b"cpu 10 20 30 40\n".to_vec()).expect("parses");
    assert_eq!(times.idle_all, 40);
    assert_eq!(times.total, 40 + 60);
}

#[test]
fn cpu_usage_from_delta() {
    let first = CpuTimes { idle_all: 400, total: 1000 };
    let (usage, remembered) = cpu_state(None, first);
    assert_eq!(usage, 0);
    assert_eq!(remembered, Some(first));

    let second = CpuTimes { idle_all: 900, total: 2000 };
    let (usage, remembered) = cpu_state(remembered, second);
    // 1000 elapsed ticks, 500 idle: 50% usage, fixed-point 500000.
    assert_eq!(usage, 500_000);
    assert_eq!(remembered, Some(second));
}

#[test]
fn cpu_usage_handles_no_progress_and_regression() {
    let prev = CpuTimes { idle_all: 400, total: 1000 };
    let same = CpuTimes { idle_all: 400, total: 1000 };
    let (usage, _) = cpu_state(Some(prev), same);
    assert_eq!(usage, 0);

    let backwards = CpuTimes { idle_all: 10, total: 500 };
    let (usage, _) = cpu_state(Some(prev), backwards);
    assert_eq!(usage, 0);
}

#[test]
fn ram_usage_from_meminfo_text() {
    let text = b"MemTotal:       16000 kB\nMemFree:         1000 kB\nMemAvailable:    4000 kB\n"
        .to_vec();
    // 12000 of 16000 kB used: 75%, fixed-point 750000.
    assert_eq!(ram_usage_from_meminfo(&text), Some(750_000));
}

#[test]
fn ram_usage_needs_both_fields() {
    assert!(ram_usage_from_meminfo(&b"MemTotal: 16000 kB\n".to_vec()).is_none());
    assert!(ram_usage_from_meminfo(&b"MemAvailable: 4000 kB\n".to_vec()).is_none());
    assert!(ram_usage_from_meminfo(&Vec::new()).is_none());
    // A zero total yields zero usage rather than failing.
    assert_eq!(
        ram_usage_from_meminfo(&b"MemTotal: 0 kB\nMemAvailable: 0 kB\n".to_vec()),
        Some(0)
    );
}

#[test]
fn tokenizer_splits_first_line_only() {
    let text = b"  alpha\tbeta  42 \nnext line\n".to_vec();
    let tokens = tokenize_line_at(&text, 0);
    let words: Vec<&[u8]> = tokens.iter().map(|t| t.as_slice()).collect();
    assert_eq!(words, vec![b"alpha".as_slice(), b"beta".as_slice(), b"42".as_slice()]);
}

#[test]
fn token_numbers_allow_leading_zeros() {
    assert_eq!(parse_token_u64(&b"007".to_vec()), Some(7));
    assert_eq!(parse_token_u64(&b"0".to_vec()), Some(0));
    assert_eq!(parse_token_u64(&b"18446744073709551615".to_vec()), Some(u64::MAX));
    assert_eq!(parse_token_u64(&b"18446744073709551616".to_vec()), None);
    assert_eq!(parse_token_u64(&b"12a".to_vec()), None);
    assert_eq!(parse_token_u64(&Vec::new()), None);
}

#[test]
fn batch_limits_stop_runs() {
    assert!(batch_should_stop(BatchLimit::DurationSecs(10), 10, 0));
    assert!(!batch_should_stop(BatchLimit::DurationSecs(10), 9, 100));
    assert!(batch_should_stop(BatchLimit::Samples(5), 0, 5));
    assert!(!batch_should_stop(BatchLimit::Samples(5), 100, 4));
}

#[test]
fn output_format_flag_falls_back_to_text() {
    assert_eq!(parse_output_format("text"), OutputFormat::Text);
    assert_eq!(parse_output_format("json"), OutputFormat::Json);
    assert_eq!(parse_output_format("yaml"), OutputFormat::Text);
    assert_eq!(parse_output_format(""), OutputFormat::Text);
}

#[test]
fn thresholds_bundle_and_lookup() {
    let t = Thresholds::new(Some(800_000), None, Some(1_000_000));
    assert_eq!(t.cpu_threshold, Some(800_000));
    assert_eq!(t.ram_threshold, None);
    assert_eq!(t.io_threshold, Some(1_000_000));
    assert_eq!(t.for_kind(ResourceKind::Cpu), Some(800_000));
    assert_eq!(t.for_kind(ResourceKind::Ram), None);
    assert_eq!(t.for_kind(ResourceKind::Io), Some(1_000_000));
}

#[test]
fn resource_units_match_kinds() {
    assert_eq!(resource_unit(ResourceKind::Cpu), "%");
    assert_eq!(resource_unit(ResourceKind::Ram), "%");
    assert_eq!(resource_unit(ResourceKind::Io), "MB/s");
}
