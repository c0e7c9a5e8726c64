use jenkins_plugin_graph::base_version::{compare_segments, BaseVersion};
use jenkins_plugin_graph::error::AppError;
use jenkins_plugin_graph::jenkins_plugin_version::JenkinsPluginVersion;
use jenkins_plugin_graph::order::Order;

fn version(text: &str) -> JenkinsPluginVersion {
    JenkinsPluginVersion::parse(text).unwrap()
}

#[test]
fn test_version_comparison_patch_and_no_patch() {
    let version_a = JenkinsPluginVersion::parse("9.7-33.v4d23ef79fcc8").unwrap();
    let version_b = JenkinsPluginVersion::parse("9.7.1-97.v4cc844130d97").unwrap();
    assert!(version_a < version_b);
}

#[test]
fn test_version_comparison_majors_only() {
    let version_a = JenkinsPluginVersion::parse("625.vd896b_f445a_f8").unwrap();
    let version_b = JenkinsPluginVersion::parse("639.v6eca_cd8c04a_a_").unwrap();
    assert!(version_a < version_b);
    let version_a = JenkinsPluginVersion::parse("1873.vea_5814ca_9c93").unwrap();
    let version_b = JenkinsPluginVersion::parse("1958.vddc0d369b_e16").unwrap();
    assert!(version_a < version_b);
}

#[test]
fn test_parse_without_build_number() {
    JenkinsPluginVersion::parse("2.1240.vca_710512d944").unwrap();
}

#[test]
fn version_round_trip() {
    let versions = ["392.v27a_482d90083"];
    for version in versions {
        let jpv = JenkinsPluginVersion::parse(version).unwrap();
        assert_eq!(jpv.to_string(), version);
    }
}

#[test]
fn parse_takes_the_three_parts_apart() {
    let v = version("9.7.1-97.v4cc844130d97");
    assert_eq!(v.base_version.segments, vec!["9".to_string(), "7".to_string(), "1".to_string()]);
    assert_eq!(v.build_number, Some(97));
    assert_eq!(v.git_hash, Some("4cc844130d97".to_string()));
}

#[test]
fn parse_without_dash_or_qualifier() {
    let v = version("2.452");
    assert_eq!(v.base_version.segments, vec!["2".to_string(), "452".to_string()]);
    assert_eq!(v.build_number, None);
    assert_eq!(v.git_hash, None);
}

#[test]
fn parse_keeps_empty_segments() {
    let v = version("1..2");
    assert_eq!(v.base_version.segments, vec!["1".to_string(), "".to_string(), "2".to_string()]);
    assert_eq!(v.to_string(), "1..2");
}

#[test]
fn parse_refuses_the_empty_text() {
    match JenkinsPluginVersion::parse("") {
        Err(AppError::VersionParseError(text)) => assert_eq!(text, ""),
        other => panic!("unexpected {:?}", other),
    }
}

#[test]
fn parse_refuses_an_empty_base() {
    assert!(matches!(JenkinsPluginVersion::parse("-5"), Err(AppError::VersionParseError(_))));
    assert!(matches!(JenkinsPluginVersion::parse(".vabc"), Err(AppError::VersionParseError(_))));
}

#[test]
fn parse_refuses_a_build_number_that_is_no_numeral() {
    match JenkinsPluginVersion::parse("1.0-4x") {
        Err(AppError::VersionParseError(text)) => assert_eq!(text, "1.0-4x"),
        other => panic!("unexpected {:?}", other),
    }
    assert!(matches!(JenkinsPluginVersion::parse("1.0-"), Err(AppError::VersionParseError(_))));
    assert!(matches!(JenkinsPluginVersion::parse("1.0-+5"), Err(AppError::VersionParseError(_))));
    assert!(matches!(JenkinsPluginVersion::parse("1.0-2-3"), Err(AppError::VersionParseError(_))));
}

#[test]
fn parse_refuses_a_build_number_that_does_not_fit() {
    assert!(matches!(
        JenkinsPluginVersion::parse("1.0-99999999999999999999999999999999"),
        Err(AppError::VersionParseError(_))
    ));
    let v = version("1.0-18446744073709551615");
    assert_eq!(v.build_number.map(|n| n as u128), Some(18446744073709551615u128));
}

#[test]
fn qualifier_is_what_follows_the_first_mark() {
    let v = version("1.0.vabc.vdef");
    assert_eq!(v.base_version.segments, vec!["1".to_string(), "0".to_string()]);
    assert_eq!(v.git_hash, Some("abc.vdef".to_string()));
    assert_eq!(v.to_string(), "1.0.vabc.vdef");
}

#[test]
fn round_trip_with_build_number_and_qualifier() {
    for text in ["9.7-33.v4d23ef79fcc8", "1.0-0", "2.1240.vca_710512d944", "7", "1.0-12.v"] {
        assert_eq!(version(text).to_string(), text);
    }
}

#[test]
fn text_that_is_not_written_plainly_comes_back_changed() {
    assert_eq!(version("1.0-05").to_string(), "1.0-5");
    assert_eq!(version("1.0.vabc-5").to_string(), "1.0-5.vabc-5");
}

#[test]
fn reading_what_was_written_gives_the_same_version() {
    for text in ["1.0-05", "1.0.vabc-5", "9.7-33.v4d23ef79fcc8", "1..2", "1.0.vabc.vdef"] {
        let v = version(text);
        let again = version(&v.to_string());
        assert!(v == again);
    }
}

#[test]
fn missing_build_number_comes_first() {
    let with = version("2.5-1");
    let without = version("2.5");
    assert!(without < with);
    assert_eq!(without.compare(&with), Order::Less);
    assert_eq!(with.compare(&without), Order::Greater);
    let zero = version("2.5-0");
    assert!(without < zero);
}

#[test]
fn build_numbers_decide_between_equal_bases() {
    assert!(version("2.5-9") < version("2.5-10"));
    assert_eq!(version("2.5-10").compare(&version("2.5-10")), Order::Equal);
}

#[test]
fn comparison_ends_with_the_shorter_base() {
    let short = version("9.7");
    let long = version("9.7.1");
    assert_eq!(short.compare(&long), Order::Equal);
    assert_eq!(long.compare(&short), Order::Equal);
    assert!(!(short < long));
    assert!(version("9.7-1") < version("9.7.1-2"));
    assert!(version("9.7.5-1") < version("9.7-2"));
}

#[test]
fn equality_is_by_the_parts() {
    assert!(version("9.7.0") != version("9.7"));
    assert!(version("9.7") == version("9.7"));
    assert!(version("1.0.va") != version("1.0.vb"));
    assert!(version("1.0-1") != version("1.0-2"));
}

#[test]
fn qualifier_plays_no_part_in_the_order() {
    assert_eq!(version("1.0-3.vaaa").compare(&version("1.0-3.vzzz")), Order::Equal);
    assert_eq!(version("1.0.vzzz").compare(&version("1.1.vaaa")), Order::Less);
}

#[test]
fn segments_compare_as_numbers_where_both_are_numerals() {
    assert_eq!(compare_segments("10", "9"), Order::Greater);
    assert_eq!(compare_segments("007", "7"), Order::Equal);
    assert_eq!(compare_segments("0", "1"), Order::Less);
    assert_eq!(
        compare_segments("99999999999999999999999", "100000000000000000000000"),
        Order::Less
    );
    assert_eq!(
        compare_segments("340282366920938463463374607431768211456", "340282366920938463463374607431768211455"),
        Order::Greater
    );
}

#[test]
fn segments_compare_by_code_value_otherwise() {
    // "ab" counts 97 + 8 * 98 = 881, "ba" counts 98 + 8 * 97 = 874.
    assert_eq!(compare_segments("ab", "ba"), Order::Greater);
    assert_eq!(compare_segments("a", "b"), Order::Less);
    // "10" counts 49 + 8 * 48 = 433 where the other segment is no numeral.
    assert_eq!(compare_segments("10", "a"), Order::Greater);
    // "9" counts 57, "10" counts 433, "z" counts 122.
    assert_eq!(compare_segments("9", "z"), Order::Less);
    assert_eq!(compare_segments("", ""), Order::Equal);
    assert_eq!(compare_segments("", "0"), Order::Less);
    // 1 + 8 * 0 against 9 + 8 * 0; and 0 + 8 * 1 against 8 + 8 * 0.
    assert_eq!(compare_segments("\u{1}\u{0}", "\u{9}"), Order::Less);
    assert_eq!(compare_segments("\u{0}\u{1}", "\u{8}"), Order::Equal);
}

#[test]
fn long_segments_compare_without_overflow() {
    let a = "abcdefghijklmnopqrstuvwxyzabcdefghijklmnopqrstuvwxyz";
    let b = "abcdefghijklmnopqrstuvwxyzabcdefghijklmnopqrstuvwxyy";
    assert_eq!(compare_segments(a, b), Order::Greater);
    assert_eq!(compare_segments(a, a), Order::Equal);
}

#[test]
fn base_version_parses_and_writes() {
    let b = BaseVersion::parse("1.20.3").unwrap();
    assert_eq!(b.segments, vec!["1".to_string(), "20".to_string(), "3".to_string()]);
    assert_eq!(b.to_string(), "1.20.3");
    assert!(matches!(BaseVersion::parse(""), Err(AppError::VersionParseError(_))));
    assert!(BaseVersion::segments_valid(&b.segments));
    assert!(!BaseVersion::segments_valid(&Vec::new()));
}

#[test]
fn base_versions_compare_by_segments() {
    let a = BaseVersion::parse("1.9").unwrap();
    let b = BaseVersion::parse("1.10").unwrap();
    assert_eq!(a.compare(&b), Order::Less);
    assert_eq!(b.compare(&a), Order::Greater);
    assert_eq!(a.compare(&a.clone()), Order::Equal);
    assert!(a == a.clone());
    assert!(a != b);
}

#[test]
fn error_names_itself() {
    assert_eq!(AppError::VersionParseError("x".to_string()).to_string(), "VersionParseError");
    assert_eq!(
        AppError::CyclicDependencyError("a".to_string(), "1".to_string()).to_string(),
        "CyclicDependencyError"
    );
}
