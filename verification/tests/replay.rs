use resource_monitor::config::{LogsQuery, OutputFormat, ResourceKind};
use resource_monitor::record::LogRecord;
use resource_monitor::replay::{record_passes_filter, resource_matches, select_records};

fn rec(kind: ResourceKind, ts_start: u64) -> LogRecord {
    LogRecord {
        resource: kind,
        ts_start,
        ts_end: ts_start + 5,
        duration_secs: 5,
        peak: 900_000,
        threshold: 800_000,
        top: Vec::new(),
    }
}

fn query(
    resource_filter: Option<ResourceKind>,
    since: Option<u64>,
    until: Option<u64>,
    limit: Option<usize>,
) -> LogsQuery {
    LogsQuery {
        log_file: String::new(),
        resource_filter,
        since,
        until,
        limit,
        output_format: OutputFormat::Text,
    }
}

fn sample_log() -> Vec<LogRecord> {
    vec![
        rec(ResourceKind::Cpu, 100),
        rec(ResourceKind::Ram, 150),
        rec(ResourceKind::Cpu, 200),
    ]
}

#[test]
fn resource_and_since_filters_combine() {
    // resource=cpu, since=150 selects only the third record.
    let records = sample_log();
    let q = query(Some(ResourceKind::Cpu), Some(150), None, None);
    let picked = select_records(&records, &q);
    assert_eq!(picked, vec![2]);
}

#[test]
fn limit_returns_first_matches_in_file_order() {
    let records = sample_log();
    let q = query(None, None, None, Some(1));
    let picked = select_records(&records, &q);
    assert_eq!(picked, vec![0]);

    let q2 = query(Some(ResourceKind::Cpu), None, None, Some(1));
    assert_eq!(select_records(&records, &q2), vec![0]);
}

#[test]
fn no_filters_select_everything() {
    let records = sample_log();
    let q = query(None, None, None, None);
    assert_eq!(select_records(&records, &q), vec![0, 1, 2]);
}

#[test]
fn until_filter_cuts_late_records() {
    let records = sample_log();
    let q = query(None, None, Some(150), None);
    assert_eq!(select_records(&records, &q), vec![0, 1]);
}

#[test]
fn since_bound_is_inclusive() {
    let records = sample_log();
    let q = query(None, Some(150), None, None);
    assert_eq!(select_records(&records, &q), vec![1, 2]);
}

#[test]
fn limit_zero_selects_nothing() {
    let records = sample_log();
    let q = query(None, None, None, Some(0));
    assert_eq!(select_records(&records, &q), Vec::<usize>::new());
}

#[test]
fn resource_matches_compares_kind() {
    let r = rec(ResourceKind::Ram, 1);
    assert!(resource_matches(&r, ResourceKind::Ram));
    assert!(!resource_matches(&r, ResourceKind::Cpu));
    assert!(!resource_matches(&r, ResourceKind::Io));
}

#[test]
fn filter_without_constraints_passes_all() {
    let r = rec(ResourceKind::Io, 7);
    let q = query(None, None, None, None);
    assert!(record_passes_filter(&r, &q));
    let q2 = query(Some(ResourceKind::Io), Some(7), Some(7), None);
    assert!(record_passes_filter(&r, &q2));
    let q3 = query(None, Some(8), None, None);
    assert!(!record_passes_filter(&r, &q3));
}
