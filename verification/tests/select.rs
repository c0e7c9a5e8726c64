use jenkins_plugin_graph::flatten::sort_packages;
use jenkins_plugin_graph::input::{FlatPackage, SatisfiedPackage};
use jenkins_plugin_graph::jenkins_plugin_version::JenkinsPluginVersion;
use jenkins_plugin_graph::selection::{group_by, merge_and_select, resolve, select_greatest};

fn flat(name: &str, v: &str, digest: &str) -> FlatPackage {
    FlatPackage {
        name: name.to_string(),
        version: JenkinsPluginVersion::parse(v).unwrap(),
        digest_string: digest.to_string(),
        digest_type: "sha256".to_string(),
        pin: true,
    }
}

fn node(name: &str, v: &str, dependencies: Vec<SatisfiedPackage>) -> SatisfiedPackage {
    SatisfiedPackage {
        name: name.to_string(),
        version: JenkinsPluginVersion::parse(v).unwrap(),
        dependencies,
        digest_string: format!("d-{}-{}", name, v),
        digest_type: "sha256".to_string(),
    }
}

fn marks(packages: &[FlatPackage]) -> Vec<String> {
    packages
        .iter()
        .map(|p| format!("{}@{}#{}", p.name, p.version.to_string(), p.digest_string))
        .collect()
}

#[test]
fn sort_goes_by_name_and_keeps_equal_names_in_order() {
    let list = vec![
        flat("b", "1", "1"),
        flat("a", "2", "2"),
        flat("b", "0", "3"),
        flat("B", "1", "4"),
        flat("a", "1", "5"),
        flat("ab", "1", "6"),
    ];
    assert_eq!(marks(&sort_packages(&list)), vec!["B@1#4", "a@2#2", "a@1#5", "ab@1#6", "b@1#1", "b@0#3"]);
    assert!(sort_packages(&Vec::new()).is_empty());
}

#[test]
fn flatten_lists_the_whole_tree_by_name() {
    let tree = node(
        "m",
        "1.0",
        vec![node("z", "1.0", vec![node("a", "2.0", vec![])]), node("a", "1.0", vec![])],
    );
    let list = tree.flatten();
    assert_eq!(
        marks(&list),
        vec!["a@2.0#d-a-2.0", "a@1.0#d-a-1.0", "m@1.0#d-m-1.0", "z@1.0#d-z-1.0"]
    );
    assert!(list.iter().all(|p| p.pin));
    assert!(list.iter().all(|p| p.digest_type == "sha256"));
    assert_eq!(marks(&node("x", "1", vec![]).flatten()), vec!["x@1#d-x-1"]);
}

#[test]
fn groups_are_by_name_in_the_order_of_the_names() {
    let groups = group_by(vec![
        flat("b", "1", "1"),
        flat("a", "2", "2"),
        flat("b", "0", "3"),
        flat("c", "1", "4"),
        flat("a", "1", "5"),
    ]);
    let seen: Vec<Vec<String>> = groups.iter().map(|g| marks(g)).collect();
    assert_eq!(
        seen,
        vec![vec!["a@2#2", "a@1#5"], vec!["b@1#1", "b@0#3"], vec!["c@1#4"]]
    );
    assert!(group_by(Vec::new()).is_empty());
}

#[test]
fn greatest_version_is_chosen_and_the_first_of_equals() {
    let group = vec![flat("a", "1.0", "1"), flat("a", "1.2-1", "2"), flat("a", "1.2-1", "3"), flat("a", "1.2", "4")];
    assert_eq!(marks(&[select_greatest(&group)]), vec!["a@1.2-1#2"]);
    let chosen = resolve(vec![group, vec![flat("b", "3", "5")]]);
    assert_eq!(marks(&chosen), vec!["a@1.2-1#2", "b@3#5"]);
}

#[test]
fn selection_does_not_depend_on_the_order() {
    let one = vec![flat("c", "1.0", "1"), flat("c", "2.0", "2"), flat("a", "1", "3"), flat("c", "1.5", "4")];
    let other = vec![flat("c", "1.5", "4"), flat("a", "1", "3"), flat("c", "2.0", "2"), flat("c", "1.0", "1")];
    let third = vec![flat("c", "2.0", "2"), flat("c", "1.5", "4"), flat("c", "1.0", "1"), flat("a", "1", "3")];
    let expected = vec!["a@1#3", "c@2.0#2"];
    assert_eq!(marks(&merge_and_select(one)), expected);
    assert_eq!(marks(&merge_and_select(other)), expected);
    assert_eq!(marks(&merge_and_select(third)), expected);
    assert!(merge_and_select(Vec::new()).is_empty());
}

#[test]
fn equal_versions_with_other_digests_are_no_failure() {
    let chosen = merge_and_select(vec![flat("a", "1.0", "x"), flat("a", "1.0", "y")]);
    assert_eq!(marks(&chosen), vec!["a@1.0#x"]);
}

#[test]
fn packages_compare_by_name() {
    assert!(flat("a", "1", "x") == flat("a", "2", "y"));
    assert!(flat("a", "1", "x") != flat("b", "1", "x"));
    assert!(node("a", "1", vec![]) == node("a", "2", vec![node("b", "1", vec![])]));
    let copy = node("a", "2", vec![node("b", "1", vec![])]).clone();
    assert_eq!(copy.dependencies[0].name, "b");
}
