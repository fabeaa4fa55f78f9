use nuked::fuzzy::{folder_haystack, matching_indices, score};
use nuked::scanner::{DependencyFolder, DependencyKind};
use nuked::time::{TimeSpan, Timestamp};

fn folder(path: &str, project: &str, kind: DependencyKind, size: u64, days: u64) -> DependencyFolder {
    DependencyFolder {
        path: path.to_string(),
        project_path: project.to_string(),
        kind,
        size_bytes: size,
        project_modified: Timestamp { secs: 0, nanos: 0 },
        age: TimeSpan { secs: days * 86_400, nanos: 0 },
    }
}

#[test]
fn matches_substrings() {
    assert!(score("node", "/tmp/app/node_modules").is_some());
}

#[test]
fn matches_ordered_fuzzy_text() {
    assert!(score("nmod", "/tmp/app/node_modules").is_some());
}

#[test]
fn rejects_unordered_text() {
    assert!(score("zyx", "/tmp/app/node_modules").is_none());
}

#[test]
fn ranks_substrings_above_sparse_matches() {
    let exact = score("dep", "/tmp/deps").unwrap();
    let sparse = score("dep", "/tmp/different-example-path").unwrap();
    assert!(exact.0 > sparse.0);
}

#[test]
fn scores_follow_the_formula() {
    assert_eq!(score("", "anything").unwrap().0, 0);
    assert_eq!(score("  ", "anything").unwrap().0, 0);
    // a whole match scores 10000 less the text's length in bytes
    assert_eq!(score("deps", "/tmp/deps").unwrap().0, 10000 - 9);
    // case is ignored
    assert_eq!(score("DEPS", "/tmp/Deps").unwrap().0, 10000 - 9);
    // each character found counts 100 less the bytes skipped before it
    assert_eq!(score("ac", "abc").unwrap().0, 100 + 99);
}

#[test]
fn haystack_joins_kind_project_path_size_and_age() {
    let f = folder("/w/app/node_modules", "/w/app", DependencyKind::Node, 512, 12);
    assert_eq!(folder_haystack(&f), "node /w/app /w/app/node_modules 512 B 12d");
}

#[test]
fn blank_query_lists_every_folder_in_order() {
    let folders = vec![
        folder("/a/node_modules", "/a", DependencyKind::Node, 1, 1),
        folder("/b/.venv", "/b", DependencyKind::Python, 2, 2),
        folder("/c/node_modules", "/c", DependencyKind::Node, 3, 3),
    ];
    assert_eq!(matching_indices(&folders, ""), vec![0, 1, 2]);
    assert_eq!(matching_indices(&folders, "   "), vec![0, 1, 2]);
}

#[test]
fn query_lists_best_matches_first() {
    let folders = vec![
        folder("/x/python-thing/.venv", "/x/python-thing", DependencyKind::Python, 1, 1),
        folder("/x/api/node_modules", "/x/api", DependencyKind::Node, 1, 1),
        folder("/x/p/.venv", "/x/p", DependencyKind::Python, 1, 1),
    ];
    let r = matching_indices(&folders, "python");
    // both python folders match as substrings; the shorter text ranks first
    assert_eq!(r, vec![2, 0]);
    assert!(matching_indices(&folders, "qqq").is_empty());
}

#[test]
fn whole_matches_outrank_scattered_ones() {
    let whole = score("api", "/w/api/node_modules").unwrap().0;
    let scattered = score("api", "/w/a-p-i/node_modules").unwrap().0;
    assert!(whole > scattered);
    assert!(scattered <= 300);
}
