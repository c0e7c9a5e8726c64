use jenkins_plugin_graph::error::AppError;
use jenkins_plugin_graph::manifest::{
    from_name_version_string, normalize_manifest, parse_dependencies,
};

#[test]
fn normalize_joins_a_wrapped_value() {
    assert_eq!(
        normalize_manifest("Plugin-Dependencies: a:1.0,\n b:2.0"),
        "Plugin-Dependencies: a:1.0,b:2.0"
    );
    assert_eq!(
        normalize_manifest("Plugin-Dependencies: a:1.0,\n  b:2.0"),
        "Plugin-Dependencies: a:1.0, b:2.0"
    );
}

#[test]
fn normalize_strips_carriage_returns_first() {
    assert_eq!(normalize_manifest("Key: val\r\n ue\r\nOther: x\r\n"), "Key: value\nOther: x\n");
    assert_eq!(normalize_manifest("\r\r"), "");
    assert_eq!(normalize_manifest(""), "");
}

#[test]
fn normalize_leaves_plain_text_alone() {
    let text = "Manifest-Version: 1.0\nPlugin-Dependencies: a:1.0,b:2.0\n";
    assert_eq!(normalize_manifest(text), text);
}

#[test]
fn normalize_twice_is_normalize_once_on_a_manifest() {
    let text = "Manifest-Version: 1.0\r\nPlugin-Dependencies: workflow-api:1.0,\r\n scm-api:2.0;resolut\r\n ion:=optional\r\n";
    let once = normalize_manifest(text);
    assert_eq!(normalize_manifest(&once), once);
}

#[test]
fn normalize_can_bring_a_wrap_about() {
    assert_eq!(normalize_manifest("\n\n  "), "\n ");
    assert_eq!(normalize_manifest("\n "), "");
}

#[test]
fn entry_gives_name_and_version() {
    let p = from_name_version_string("workflow-api:1200.v8005c684b_a_c6").unwrap();
    assert_eq!(p.name, "workflow-api");
    assert_eq!(p.version.to_string(), "1200.v8005c684b_a_c6");
}

#[test]
fn entry_drops_what_follows_the_semicolon() {
    let p = from_name_version_string("scm-api:2.6.3;resolution:=optional").unwrap();
    assert_eq!(p.name, "scm-api");
    assert_eq!(p.version.to_string(), "2.6.3");
}

#[test]
fn entry_without_colon_is_refused() {
    match from_name_version_string("scm-api") {
        Err(AppError::RemotePluginDeserializeError(text)) => assert_eq!(text, "scm-api"),
        other => panic!("unexpected {:?}", other),
    }
}

#[test]
fn entry_with_a_bad_version_is_refused() {
    match from_name_version_string("scm-api:1.0-x;resolution:=optional") {
        Err(AppError::VersionParseError(text)) => assert_eq!(text, "1.0-x"),
        other => panic!("unexpected {:?}", other),
    }
    assert!(matches!(from_name_version_string("scm-api:"), Err(AppError::VersionParseError(_))));
}

#[test]
fn dependencies_come_from_every_dependency_line() {
    let manifest = "Manifest-Version: 1.0\nPlugin-Dependencies: a:1.0,b:2.0-3.vabc\nShort-Name: x\nPlugin-Dependencies:c:3.0;resolution:=optional\n";
    let deps = parse_dependencies(manifest).unwrap();
    let found: Vec<(String, String)> =
        deps.iter().map(|d| (d.name.clone(), d.version.to_string())).collect();
    assert_eq!(
        found,
        vec![
            ("a".to_string(), "1.0".to_string()),
            ("b".to_string(), "2.0-3.vabc".to_string()),
            ("c".to_string(), "3.0".to_string()),
        ]
    );
}

#[test]
fn manifest_without_dependency_lines_declares_none() {
    assert!(parse_dependencies("Manifest-Version: 1.0\nShort-Name: x\n").unwrap().is_empty());
    assert!(parse_dependencies("").unwrap().is_empty());
    assert!(parse_dependencies("X-Plugin-Dependencies: a:1.0\n").unwrap().is_empty());
}

#[test]
fn only_one_space_after_the_prefix_is_passed_over() {
    let deps = parse_dependencies("Plugin-Dependencies:  a:1.0").unwrap();
    assert_eq!(deps[0].name, " a");
}

#[test]
fn malformed_dependency_line_is_a_failure() {
    assert!(matches!(
        parse_dependencies("Plugin-Dependencies: a:1.0,b\n"),
        Err(AppError::RemotePluginDeserializeError(_))
    ));
    match parse_dependencies("Plugin-Dependencies: \n") {
        Err(AppError::RemotePluginDeserializeError(text)) => assert_eq!(text, ""),
        other => panic!("unexpected {:?}", other.map(|d| d.len())),
    }
}

#[test]
fn first_failure_in_the_order_of_the_entries_wins() {
    match parse_dependencies("Plugin-Dependencies: a:1.0-x,b\nPlugin-Dependencies: c\n") {
        Err(AppError::VersionParseError(text)) => assert_eq!(text, "1.0-x"),
        other => panic!("unexpected {:?}", other.map(|d| d.len())),
    }
}

#[test]
fn wrapped_dependency_line_is_read_after_normalizing() {
    let raw = "Plugin-Dependencies: a:1.0,\r\n b:2.0\r\n";
    let deps = parse_dependencies(&normalize_manifest(raw)).unwrap();
    assert_eq!(deps.len(), 2);
    assert_eq!(deps[1].name, "b");
    assert_eq!(deps[1].version.to_string(), "2.0");
}
