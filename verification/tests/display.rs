use nuked::age::AgeThreshold;
use nuked::display::{
    age_label, bar, bytes, modified_label_at, percent, scan_report, status_label, total_for_indices,
    total_size_for_indices,
};
use nuked::scanner::{DependencyFolder, DependencyKind, ScanSummary};
use nuked::time::{TimeSpan, Timestamp};

/// The number of full cells a value fills in a bar of `width` cells out of `max`.
fn filled(value: u64, max: u64, width: usize) -> usize {
    if max == 0 {
        0
    } else {
        ((value as f64 / max as f64) * width as f64).round() as usize
    }
}

/// The whole percent a value is of `max`, rounded as `{:.0}` rounds.
fn rounded_percent(value: u64, max: u64) -> u128 {
    if max == 0 {
        0
    } else {
        format!("{:.0}", (value as f64 / max as f64) * 100.0).parse().unwrap()
    }
}

fn bar_of(value: u64, max: u64, width: usize) -> String {
    bar(max, width, filled(value, max, width))
}

fn percent_of(value: u64, max: u64) -> String {
    percent(max, rounded_percent(value, max))
}

fn folder(path: &str, kind: DependencyKind, size: u64, days: u64) -> DependencyFolder {
    DependencyFolder {
        path: path.to_string(),
        project_path: path.rsplit_once('/').unwrap().0.to_string(),
        kind,
        size_bytes: size,
        project_modified: Timestamp { secs: 0, nanos: 0 },
        age: TimeSpan { secs: days * 86_400, nanos: 0 },
    }
}

#[test]
fn bars_keep_fixed_width() {
    assert_eq!(bar_of(0, 100, 12).chars().count(), 12);
    assert_eq!(bar_of(50, 100, 12).chars().count(), 12);
    assert_eq!(bar_of(100, 100, 12).chars().count(), 12);
}

#[test]
fn percent_handles_empty_totals() {
    assert_eq!(percent_of(0, 0), "0%");
    assert_eq!(percent_of(25, 100), "25%");
}

#[test]
fn bars_fill_in_proportion() {
    assert_eq!(bar_of(50, 100, 4), "::..");
    assert_eq!(bar_of(0, 0, 3), "   ");
    assert_eq!(bar_of(7, 7, 0), "");
    assert_eq!(bar(100, 4, 9), "::::");
}

#[test]
fn byte_counts_below_a_kibibyte_are_plain() {
    assert_eq!(bytes(0), "0 B");
    assert_eq!(bytes(1023), "1023 B");
    assert_ne!(bytes(2048), "2048");
    assert_eq!(bytes(2048), "2 KiB");
}

#[test]
fn ages_show_days_then_years() {
    assert_eq!(age_label(TimeSpan { secs: 0, nanos: 0 }), "0d");
    assert_eq!(age_label(TimeSpan { secs: 86_399, nanos: 5 }), "0d");
    assert_eq!(age_label(TimeSpan { secs: 364 * 86_400, nanos: 0 }), "364d");
    assert_eq!(age_label(TimeSpan { secs: 365 * 86_400, nanos: 0 }), "1y");
    assert_eq!(age_label(TimeSpan { secs: 800 * 86_400, nanos: 0 }), "2y");
}

#[test]
fn modified_labels_count_back_from_now() {
    let now = Timestamp { secs: 10 * 86_400, nanos: 0 };
    assert_eq!(modified_label_at(now, Timestamp { secs: 3 * 86_400, nanos: 0 }), "7d ago");
    assert_eq!(modified_label_at(now, Timestamp { secs: 11 * 86_400, nanos: 0 }), "in future");
}

#[test]
fn statuses_are_ready_or_newer() {
    assert_eq!(status_label(true), "ready");
    assert_eq!(status_label(false), "newer");
}

#[test]
fn totals_at_indices_count_each_listed_folder() {
    let scan = ScanSummary {
        roots: vec!["/w".to_string()],
        folders: vec![
            folder("/w/a/node_modules", DependencyKind::Node, 100, 40),
            folder("/w/b/node_modules", DependencyKind::Node, 10, 2),
            folder("/w/c/.venv", DependencyKind::Python, 1, 400),
        ],
    };
    assert_eq!(total_size_for_indices(&scan, &[2, 0]), 101);
    assert_eq!(total_for_indices(&scan, &[0, 1], AgeThreshold::days(30)), 100);
    assert_eq!(total_for_indices(&scan, &[], AgeThreshold::days(30)), 0);
}

#[test]
fn scan_report_figures() {
    let scan = ScanSummary {
        roots: vec!["/w".to_string()],
        folders: vec![
            folder("/w/a/node_modules", DependencyKind::Node, 100, 40),
            folder("/w/b/.venv", DependencyKind::Python, 10, 2),
            folder("/w/c/node_modules", DependencyKind::Node, 1, 400),
        ],
    };
    let r = scan_report(&scan, AgeThreshold::days(30), None);
    assert_eq!(r.roots, 1);
    assert_eq!(r.detected, 3);
    assert_eq!(r.filter, None);
    assert_eq!(r.matching, 3);
    assert_eq!(r.rows, vec![0, 1, 2]);
    assert_eq!(r.total_size, 111);
    assert_eq!(r.eligible_count, 2);
    assert_eq!(r.eligible_size, 101);
    assert_eq!(r.chart_max, 111);
    let totals: Vec<u64> = r.presets.iter().map(|p| p.total).collect();
    assert_eq!(totals, vec![101, 101, 1, 1]);
    assert_eq!(r.ecosystems[0].total, 101);
    assert_eq!(r.ecosystems[1].total, 10);

    let f = scan_report(&scan, AgeThreshold::days(30), Some("venv"));
    assert_eq!(f.filter.as_deref(), Some("venv"));
    assert_eq!(f.rows, vec![1]);
    assert_eq!(f.matching_size, 10);
    assert_eq!(f.chart_max, 10);
    assert_eq!(f.eligible_count, 0);
    assert_eq!(f.ecosystems[0].total, 0);
    assert_eq!(f.ecosystems[1].total, 10);
    assert_eq!(f.total_size, 111);

    let blank = scan_report(&scan, AgeThreshold::days(30), Some("  "));
    assert_eq!(blank.filter, None);
    assert_eq!(blank.matching, 3);
}
