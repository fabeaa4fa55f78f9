use nuked::age::AgeThreshold;
use nuked::ignore::IgnoreRules;
use nuked::scanner::{
    classify_activity, classify_entry, dependency_kind, folder_age, is_project_for_kind, latest_activity,
    looks_like_requirements_file, remember_folder, summarize_scan, ActivityStep, DependencyFolder, DependencyKind,
    ScanSummary, WalkStep,
};
use nuked::time::{TimeSpan, Timestamp};

fn strings(v: &[&str]) -> Vec<String> {
    v.iter().map(|s| s.to_string()).collect()
}

fn folder(path: &str, size: u64, days: u64) -> DependencyFolder {
    DependencyFolder {
        path: path.to_string(),
        project_path: path.rsplit_once('/').unwrap().0.to_string(),
        kind: DependencyKind::Node,
        size_bytes: size,
        project_modified: Timestamp { secs: 0, nanos: 0 },
        age: TimeSpan { secs: days * 86_400, nanos: 0 },
    }
}

#[test]
fn node_modules_needs_a_node_project_file() {
    assert!(is_project_for_kind(DependencyKind::Node, &strings(&["package.json"]), &vec![]));
    assert!(is_project_for_kind(DependencyKind::Node, &strings(&["yarn.lock"]), &vec![]));
    assert!(!is_project_for_kind(DependencyKind::Node, &vec![], &vec![]));
    assert!(!is_project_for_kind(DependencyKind::Node, &strings(&["setup.py"]), &vec![]));
}

#[test]
fn python_projects_are_known_by_markers_or_requirement_files() {
    assert!(is_project_for_kind(DependencyKind::Python, &vec![], &strings(&["requests==2.0\n"])));
    assert!(is_project_for_kind(DependencyKind::Python, &vec![], &strings(&["discord.py\npython-dotenv\naiohttp\n"])));
    assert!(!is_project_for_kind(DependencyKind::Python, &vec![], &strings(&["remember to buy batteries\n"])));
    assert!(!is_project_for_kind(DependencyKind::Python, &vec![], &vec![]));
    assert!(is_project_for_kind(DependencyKind::Python, &strings(&["pyproject.toml"]), &vec![]));
    assert!(is_project_for_kind(DependencyKind::Python, &strings(&["poetry.lock"]), &strings(&["notes\n"])));
    assert!(is_project_for_kind(DependencyKind::NpmCache, &vec![], &vec![]));
}

#[test]
fn requirement_files_are_recognised_by_their_lines() {
    assert!(looks_like_requirements_file("# deps\n\nflask>=2\n"));
    assert!(looks_like_requirements_file("-r base.txt\n"));
    assert!(looks_like_requirements_file("git+https://example.com/x.git\n"));
    assert!(looks_like_requirements_file("requests[socks] ; python_version > '3'\n"));
    assert!(!looks_like_requirements_file("remember to buy batteries\n"));
    assert!(!looks_like_requirements_file("a..b\n"));
    assert!(!looks_like_requirements_file("12345\n"));
    let late = format!("{}requests==1\n", "# c\n".repeat(60));
    assert!(!looks_like_requirements_file(&late));
}

#[test]
fn dependency_folders_are_known_by_name() {
    assert_eq!(dependency_kind("/w/app/node_modules"), Some(DependencyKind::Node));
    assert_eq!(dependency_kind("/w/app/.venv"), Some(DependencyKind::Python));
    assert_eq!(dependency_kind("/w/app/virtualenv"), Some(DependencyKind::Python));
    assert_eq!(dependency_kind("/w/app/src"), None);
    assert_eq!(dependency_kind("/"), None);
}

#[test]
fn walks_skip_ignored_and_noise_directories() {
    let rules = IgnoreRules::parse("# fixtures\nignored/\napps/api\n").unwrap();
    assert_eq!(classify_entry(&rules, "/r", "/r/ignored", true), WalkStep::SkipDir);
    assert_eq!(classify_entry(&rules, "/r", "/r/deep/ignored", true), WalkStep::SkipDir);
    assert_eq!(classify_entry(&rules, "/r", "/r/apps/api", true), WalkStep::SkipDir);
    assert_eq!(classify_entry(&rules, "/r", "/r/apps/web", true), WalkStep::Continue);
    assert_eq!(classify_entry(&rules, "/r", "/r/x/.git", true), WalkStep::SkipDir);
    assert_eq!(classify_entry(&rules, "/r", "/r/kept/node_modules", true), WalkStep::Dependency(DependencyKind::Node));
    assert_eq!(classify_entry(&rules, "/r", "/r/kept/file.txt", false), WalkStep::Continue);
    assert_eq!(classify_entry(&rules, "/r/target", "/r/target", true), WalkStep::Continue);
}

#[test]
fn project_activity_ignores_dependencies_and_noise() {
    let p = "/w/app";
    let d = "/w/app/node_modules";
    assert_eq!(classify_activity(p, d, "/w/app/node_modules", true), ActivityStep::SkipDir);
    assert_eq!(classify_activity(p, d, "/w/app/dist", true), ActivityStep::SkipDir);
    assert_eq!(classify_activity(p, d, "/w/app/.DS_Store", false), ActivityStep::Ignore);
    assert_eq!(classify_activity(p, d, "/w/app/src.js", false), ActivityStep::Count);
    assert_eq!(classify_activity(p, d, "/w/app/src", true), ActivityStep::Ignore);
    assert_eq!(classify_activity(p, d, "/w/app", true), ActivityStep::Ignore);
}

#[test]
fn project_age_is_measured_from_the_latest_activity() {
    let old = Timestamp { secs: 1_700_000_000, nanos: 0 };
    let fresh = Timestamp { secs: 1_700_000_500, nanos: 0 };
    let latest = latest_activity(Some(old), fresh);
    assert_eq!(latest, fresh);
    assert_eq!(latest_activity(Some(fresh), old), fresh);
    assert_eq!(latest_activity(None, old), old);
    let now = Timestamp { secs: 1_700_000_000 + 31 * 86_400, nanos: 0 };
    let age = folder_age(now, old);
    assert_eq!(age.secs, 31 * 86_400);
    let f = DependencyFolder { age, ..folder("/w/app/node_modules", 1, 0) };
    assert!(f.is_older_than(AgeThreshold::days(30)));
    assert_eq!(folder_age(old, now).secs, 0);
}

#[test]
fn folders_are_remembered_once() {
    let mut seen = Vec::new();
    assert!(remember_folder(&mut seen, "/a".to_string()));
    assert!(!remember_folder(&mut seen, "/a".to_string()));
    assert!(remember_folder(&mut seen, "/b".to_string()));
    assert_eq!(seen.len(), 2);
}

#[test]
fn summaries_sort_largest_first_then_by_path_and_total_up() {
    let scan = summarize_scan(
        strings(&["/w"]),
        vec![folder("/w/b/node_modules", 5, 40), folder("/w/c/node_modules", 50, 1), folder("/w/a/node_modules", 5, 10)],
    );
    let paths: Vec<&str> = scan.folders.iter().map(|f| f.path.as_str()).collect();
    assert_eq!(paths, vec!["/w/c/node_modules", "/w/a/node_modules", "/w/b/node_modules"]);
    assert_eq!(scan.total_size(), 60);
    assert_eq!(scan.total_for(AgeThreshold::days(7)), 10);
    assert_eq!(scan.total_for(AgeThreshold::days(30)), 5);
    let chosen: Vec<&str> = scan.selected_for(AgeThreshold::days(7)).iter().map(|f| f.path.as_str()).collect();
    assert_eq!(chosen, vec!["/w/a/node_modules", "/w/b/node_modules"]);
    let empty = ScanSummary { roots: vec![], folders: vec![] };
    assert_eq!(empty.total_size(), 0);
}
