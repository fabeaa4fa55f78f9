use nuked::age::AgeThreshold;

fn parse(raw: &str) -> Result<AgeThreshold, String> {
    assert!(!AgeThreshold::parse_overflows(raw));
    AgeThreshold::parse(raw)
}

#[test]
fn parses_supported_units() {
    assert_eq!(parse("7d").unwrap().as_days(), 7);
    assert_eq!(parse("2w").unwrap().as_days(), 14);
    assert_eq!(parse("3m").unwrap().as_days(), 90);
    assert_eq!(parse("1y").unwrap().as_days(), 365);
    assert_eq!(parse("45").unwrap().as_days(), 45);
}

#[test]
fn rejects_invalid_values() {
    assert!(parse("0d").is_err());
    assert!(parse("soon").is_err());
    assert!(parse("10q").is_err());
}

#[test]
fn each_refusal_has_its_message() {
    assert_eq!(parse("   ").unwrap_err(), "age must not be empty");
    assert_eq!(parse("soon").unwrap_err(), "age must start with a positive number");
    assert_eq!(parse("0w").unwrap_err(), "age must be greater than zero");
    assert_eq!(parse("10q").unwrap_err(), "age unit must be d, w, m, or y");
    assert_eq!(parse("99999999999999999999d").unwrap_err(), "age must start with a positive number");
}

#[test]
fn reads_long_unit_names_in_any_case() {
    assert_eq!(parse(" 2Weeks ").unwrap().as_days(), 14);
    assert_eq!(parse("2 weeks").unwrap_err(), "age unit must be d, w, m, or y");
    assert_eq!(parse("1YEAR").unwrap().as_days(), 365);
    assert_eq!(parse("4months").unwrap().as_days(), 120);
    assert_eq!(parse("3days").unwrap().as_days(), 3);
    assert_eq!(parse("2yr").unwrap().as_days(), 730);
}

#[test]
fn overflowing_ages_are_detected_before_reading() {
    assert!(AgeThreshold::parse_overflows("18446744073709551615y"));
    assert!(!AgeThreshold::parse_overflows("18446744073709551615"));
    assert!(!AgeThreshold::parse_overflows("soon"));
}

#[test]
fn labels_read_back_as_the_same_threshold() {
    for days in [1u64, 7, 30, 45, 90, 365, 400] {
        let label = AgeThreshold::days(days).label();
        assert_eq!(parse(&label).unwrap().as_days(), days);
    }
    assert_eq!(AgeThreshold::days(365).label(), "1y");
    assert_eq!(AgeThreshold::days(30).label(), "30d");
}

#[test]
fn presets_are_a_week_a_month_a_quarter_and_a_year() {
    let days: Vec<u64> = AgeThreshold::presets().iter().map(|t| t.as_days()).collect();
    assert_eq!(days, vec![7, 30, 90, 365]);
}

#[test]
fn duration_counts_whole_days_in_seconds() {
    let d = AgeThreshold::days(2).as_duration();
    assert_eq!(d.secs, 172_800);
    assert_eq!(d.nanos, 0);
}
