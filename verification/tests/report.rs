use nuked::age::AgeThreshold;
use nuked::cache::{CacheCandidate, CacheManager, CacheSummary};
use nuked::report::{cache_report, project_report};
use nuked::scanner::{DependencyFolder, DependencyKind, ScanSummary};
use nuked::time::{TimeSpan, Timestamp};

#[test]
fn project_report_has_expected_shape() {
    let scan = ScanSummary {
        roots: vec!["/tmp".to_string()],
        folders: vec![DependencyFolder {
            path: "/tmp/app/node_modules".to_string(),
            project_path: "/tmp/app".to_string(),
            kind: DependencyKind::Node,
            size_bytes: 100,
            project_modified: Timestamp { secs: 0, nanos: 0 },
            age: TimeSpan { secs: 10 * 86_400, nanos: 0 },
        }],
    };

    let report = project_report(&scan, AgeThreshold::days(7), None);

    assert_eq!(report.mode, "project");
    assert_eq!(report.totals.detected_count, 1);
    assert_eq!(report.folders[0].ecosystem, "node");
}

#[test]
fn project_report_lists_matches_with_their_status() {
    let mk = |path: &str, size: u64, days: u64| DependencyFolder {
        path: path.to_string(),
        project_path: path.rsplit_once('/').unwrap().0.to_string(),
        kind: DependencyKind::Node,
        size_bytes: size,
        project_modified: Timestamp { secs: 0, nanos: 0 },
        age: TimeSpan { secs: days * 86_400, nanos: 0 },
    };
    let scan = ScanSummary {
        roots: vec!["/r1".to_string(), "/r2".to_string()],
        folders: vec![mk("/r1/api/node_modules", 300, 60), mk("/r2/web/node_modules", 20, 3)],
    };
    let report = project_report(&scan, AgeThreshold::days(30), Some(" "));
    assert_eq!(report.roots, vec!["/r1".to_string(), "/r2".to_string()]);
    assert_eq!(report.filter, None);
    assert_eq!(report.threshold, "30d");
    assert_eq!(report.totals.detected_count, 2);
    assert_eq!(report.totals.total_size_bytes, 320);
    assert_eq!(report.totals.eligible_count, 1);
    assert_eq!(report.totals.eligible_size_bytes, 300);
    assert_eq!(report.folders[0].status, "ready");
    assert_eq!(report.folders[1].status, "newer");
    assert_eq!(report.folders[1].age_seconds, 3 * 86_400);
    assert_eq!(report.folders[1].project_path, "/r2/web");

    let filtered = project_report(&scan, AgeThreshold::days(365), Some("web"));
    assert_eq!(filtered.filter.as_deref(), Some("web"));
    assert_eq!(filtered.threshold, "1y");
    assert_eq!(filtered.totals.detected_count, 1);
    assert_eq!(filtered.folders[0].path, "/r2/web/node_modules");
    assert_eq!(filtered.totals.eligible_count, 0);
}

#[test]
fn cache_report_counts_every_cache_as_reclaimable() {
    let summary = CacheSummary {
        candidates: vec![
            CacheCandidate { path: "/h/.npm".to_string(), manager: CacheManager::Npm, size_bytes: 7 },
            CacheCandidate { path: "/h/.cache/pip".to_string(), manager: CacheManager::Pip, size_bytes: 5 },
        ],
    };
    let report = cache_report(&summary);
    assert_eq!(report.mode, "cache");
    assert_eq!(report.totals.detected_count, 2);
    assert_eq!(report.totals.total_size_bytes, 12);
    assert_eq!(report.totals.eligible_count, 2);
    assert_eq!(report.totals.eligible_size_bytes, 12);
    assert_eq!(report.candidates[0].ecosystem, "npm-cache");
    assert_eq!(report.candidates[1].ecosystem, "pip-cache");
    assert_eq!(report.candidates[1].status, "ready");
    assert_eq!(report.candidates[1].age_seconds, 365 * 86_400);
    assert_eq!(report.candidates[1].project_path, "/h/.cache/pip");
}
