use nuked::age::AgeThreshold;
use nuked::profiles::{effective_age, effective_roots, expand_home, Profile, Profiles, RawProfile};

/// Reads profiles text as the program does: a `profiles` table of named tables
/// with `roots` and an optional `older_than`, in name order.
fn parse(content: &str, home: Option<&str>) -> Result<Profiles, String> {
    let table: toml::Table = toml::from_str(content).map_err(|e| e.to_string())?;
    let mut raw = Vec::new();
    if let Some(profiles) = table.get("profiles").and_then(|v| v.as_table()) {
        for (name, value) in profiles {
            let t = value.as_table().unwrap();
            let roots = t
                .get("roots")
                .and_then(|v| v.as_array())
                .map(|a| a.iter().map(|r| r.as_str().unwrap().to_string()).collect())
                .unwrap_or_default();
            let older_than = t.get("older_than").and_then(|v| v.as_str()).map(str::to_string);
            if let Some(age) = &older_than {
                assert!(!AgeThreshold::parse_overflows(age));
            }
            raw.push(RawProfile { name: name.clone(), roots, older_than });
        }
    }
    Profiles::from_raw(raw, home)
}

#[test]
fn parses_profiles() {
    let profiles = parse(
        r#"
            [profiles.work]
            roots = ["~/Code", "/tmp/repos"]
            older_than = "7d"
            "#,
        Some("/home/me"),
    )
    .unwrap();

    let profile = profiles.get("work").unwrap();
    assert_eq!(profile.roots.len(), 2);
    assert_eq!(profile.older_than.unwrap().as_days(), 7);
}

#[test]
fn rejects_invalid_age() {
    let err = parse(
        r#"
            [profiles.work]
            roots = ["/tmp/repos"]
            older_than = "later"
            "#,
        None,
    )
    .unwrap_err();

    assert!(err.contains("invalid older_than"));
}

#[test]
fn invalid_age_message_names_the_profile() {
    let raw = vec![
        RawProfile { name: "a".to_string(), roots: vec![], older_than: Some("1w".to_string()) },
        RawProfile { name: "b".to_string(), roots: vec![], older_than: Some("0d".to_string()) },
        RawProfile { name: "c".to_string(), roots: vec![], older_than: Some("x".to_string()) },
    ];
    let err = Profiles::from_raw(raw, None).unwrap_err();
    assert_eq!(err, "profile b has invalid older_than: age must be greater than zero");
}

#[test]
fn profiles_are_ordered_by_name_and_found_by_name() {
    let raw = vec![
        RawProfile { name: "zeta".to_string(), roots: vec!["~".to_string()], older_than: None },
        RawProfile { name: "alpha".to_string(), roots: vec!["~/src".to_string(), "/abs".to_string()], older_than: None },
    ];
    let profiles = Profiles::from_raw(raw, Some("/home/me")).unwrap();
    let names: Vec<&str> = profiles.all().iter().map(|p| p.name.as_str()).collect();
    assert_eq!(names, vec!["alpha", "zeta"]);
    assert_eq!(profiles.get("zeta").unwrap().roots, vec!["/home/me".to_string()]);
    assert_eq!(profiles.get("alpha").unwrap().roots, vec!["/home/me/src".to_string(), "/abs".to_string()]);
    assert_eq!(profiles.get("alpha").unwrap().older_than, None);
    assert!(profiles.get("beta").is_none());
    assert!(!profiles.is_empty());
    assert!(Profiles::default().is_empty());
}

#[test]
fn home_is_expanded_only_at_the_start() {
    assert_eq!(expand_home("~", Some("/h")), "/h");
    assert_eq!(expand_home("~/a/b", Some("/h")), "/h/a/b");
    assert_eq!(expand_home("~x", Some("/h")), "~x");
    assert_eq!(expand_home("a/~/b", Some("/h")), "a/~/b");
    assert_eq!(expand_home("~/a", None), "~/a");
    assert_eq!(expand_home("~", None), "~");
}

#[test]
fn command_line_settings_override_the_profile() {
    let profile = Profile {
        name: "work".to_string(),
        roots: vec!["/p1".to_string(), "/p2".to_string()],
        older_than: Some(AgeThreshold::days(7)),
    };
    assert_eq!(effective_roots(vec!["/cli".to_string()], Some(&profile)), Some(vec!["/cli".to_string()]));
    assert_eq!(effective_roots(vec![], Some(&profile)), Some(vec!["/p1".to_string(), "/p2".to_string()]));
    assert_eq!(effective_roots(vec![], None), None);
    assert_eq!(effective_age(Some(AgeThreshold::days(90)), Some(&profile)).as_days(), 90);
    assert_eq!(effective_age(None, Some(&profile)).as_days(), 7);
    assert_eq!(effective_age(None, None).as_days(), 30);
    let plain = Profile { older_than: None, ..profile };
    assert_eq!(effective_age(None, Some(&plain)).as_days(), 30);
}
