use nuked::cache::{candidate_paths, summarize_caches, CacheCandidate, CacheManager, CacheSummary};
use nuked::scanner::DependencyKind;
use nuked::time::Timestamp;

#[test]
fn cache_summary_maps_to_scan_summary_with_cache_kind() {
    let summary = CacheSummary {
        candidates: vec![CacheCandidate {
            path: "/tmp/cache-test/npm".to_string(),
            manager: CacheManager::Npm,
            size_bytes: 10,
        }],
    };

    let scan = summary.to_scan_summary();

    assert_eq!(scan.folders[0].kind.label(), "npm-cache");
    assert_eq!(scan.total_size(), 10);
}

#[test]
fn caches_are_listed_a_year_before_now() {
    let summary = CacheSummary {
        candidates: vec![
            CacheCandidate { path: "/h/.npm".to_string(), manager: CacheManager::Npm, size_bytes: 3 },
            CacheCandidate { path: "/h/.cache/pip".to_string(), manager: CacheManager::Pip, size_bytes: 4 },
        ],
    };
    let now = Timestamp { secs: 400 * 86_400, nanos: 5 };
    let scan = summary.to_scan_summary_at(now);
    assert_eq!(scan.roots, vec!["/h/.npm".to_string(), "/h/.cache/pip".to_string()]);
    assert_eq!(scan.folders[1].kind, DependencyKind::PipCache);
    assert_eq!(scan.folders[1].project_path, "/h/.cache/pip");
    assert_eq!(scan.folders[1].age.secs, 365 * 86_400);
    assert_eq!(scan.folders[0].project_modified, Timestamp { secs: 35 * 86_400, nanos: 5 });
    assert_eq!(summary.total_size(), 7);

    let early = summary.to_scan_summary_at(Timestamp { secs: i64::MIN + 10, nanos: 0 });
    assert_eq!(early.folders[0].project_modified, Timestamp { secs: 0, nanos: 0 });
}

#[test]
fn managers_map_to_cache_kinds() {
    assert_eq!(CacheManager::Npm.dependency_kind(), DependencyKind::NpmCache);
    assert_eq!(CacheManager::Pip.dependency_kind(), DependencyKind::PipCache);
}

#[test]
fn caches_are_sorted_largest_first_then_by_path() {
    let found = vec![
        CacheCandidate { path: "/b".to_string(), manager: CacheManager::Npm, size_bytes: 1 },
        CacheCandidate { path: "/c".to_string(), manager: CacheManager::Pip, size_bytes: 9 },
        CacheCandidate { path: "/a".to_string(), manager: CacheManager::Pip, size_bytes: 1 },
    ];
    let summary = summarize_caches(found);
    let paths: Vec<&str> = summary.candidates.iter().map(|c| c.path.as_str()).collect();
    assert_eq!(paths, vec!["/c", "/a", "/b"]);
}

#[test]
fn cache_locations_come_from_settings() {
    let all = candidate_paths(Some("/custom/npm".to_string()), Some("/home/u".to_string()));
    let got: Vec<(CacheManager, &str)> = all.iter().map(|l| (l.manager, l.path.as_str())).collect();
    assert_eq!(
        got,
        vec![
            (CacheManager::Npm, "/custom/npm"),
            (CacheManager::Npm, "/home/u/.npm"),
            (CacheManager::Pip, "/home/u/.cache/pip"),
            (CacheManager::Pip, "/home/u/Library/Caches/pip"),
        ]
    );

    let same = candidate_paths(Some("/home/u/.npm/".to_string()), Some("/home/u".to_string()));
    let got: Vec<&str> = same.iter().map(|l| l.path.as_str()).collect();
    assert_eq!(got, vec!["/home/u/.npm/", "/home/u/.cache/pip", "/home/u/Library/Caches/pip"]);

    assert!(candidate_paths(None, None).is_empty());
    let only_npm = candidate_paths(Some("npm-cache".to_string()), None);
    assert_eq!(only_npm.len(), 1);
}
