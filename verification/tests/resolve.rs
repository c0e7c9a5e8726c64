use jenkins_plugin_graph::error::AppError;
use jenkins_plugin_graph::input::{Input, InputPackage, ResolvedPackage, SatisfiedPackage};
use jenkins_plugin_graph::jenkins_plugin_version::JenkinsPluginVersion;
use jenkins_plugin_graph::resolver::{dependency, effective_version, resolve_all};
use jenkins_plugin_graph::roots::{filter_referenced, flatten_dependencies, package_set};
use jenkins_plugin_graph::store::{
    archive_cache_path, archive_hash_file, cached_manifest, dependency_http, manifest_cache_path,
    plugin_url, ArtifactStore,
};
use std::io::Write;

fn version(text: &str) -> JenkinsPluginVersion {
    JenkinsPluginVersion::parse(text).unwrap()
}

fn request(name: &str, v: &str) -> ResolvedPackage {
    ResolvedPackage { name: name.to_string(), version: version(v) }
}

fn put(store: &mut ArtifactStore, name: &str, v: &str, dependencies: &str) {
    let manifest = if dependencies.is_empty() {
        "Manifest-Version: 1.0\n".to_string()
    } else {
        format!("Manifest-Version: 1.0\nPlugin-Dependencies: {}\n", dependencies)
    };
    store.put_archive(&name.to_string(), &version(v), format!("{}@{}", name, v).into_bytes());
    store.put_manifest(&name.to_string(), &version(v), manifest);
}

fn shape(p: &SatisfiedPackage) -> String {
    let inner: Vec<String> = p.dependencies.iter().map(shape).collect();
    format!("{}@{}[{}]", p.name, p.version.to_string(), inner.join(","))
}

fn listed(packages: &[jenkins_plugin_graph::input::FlatPackage]) -> Vec<(String, String)> {
    packages.iter().map(|p| (p.name.clone(), p.version.to_string())).collect()
}

fn pair(name: &str, v: &str) -> (String, String) {
    (name.to_string(), v.to_string())
}

#[test]
fn paths_and_address_are_put_together() {
    let dir = "/var/cache".to_string();
    let name = "git".to_string();
    let v = version("5.2.1-3.vabc");
    assert_eq!(archive_cache_path(&dir, &name, &v), "/var/cache/git--5.2.1-3.vabc.hpi");
    assert_eq!(manifest_cache_path(&dir, &name, &v), "/var/cache/git--5.2.1-3.vabc.mf");
    assert_eq!(plugin_url(&name, &v), "https://get.jenkins.io/plugins/git/5.2.1-3.vabc/git.hpi");
}

#[test]
fn cache_hit_gives_the_cached_text() {
    let mut store = ArtifactStore::new("/c".to_string());
    store.put_archive(&"a".to_string(), &version("1.0"), vec![1, 2, 3]);
    store.put_manifest(&"a".to_string(), &version("1.0"), "Manifest-Version: 1.0\n".to_string());
    let text = cached_manifest(&store, "a".to_string(), version("1.0")).unwrap();
    assert_eq!(text, "Manifest-Version: 1.0\n");
    let found = dependency(&vec![], &store, "a".to_string(), &version("1.0")).unwrap();
    assert_eq!(shape(&found), "a@1.0[]");
}

#[test]
fn cache_needs_both_files() {
    let mut store = ArtifactStore::new("/c".to_string());
    match cached_manifest(&store, "a".to_string(), version("1.0")) {
        Err(AppError::CachedManifestMissingWarning(name, v)) => {
            assert_eq!(name, "a");
            assert_eq!(v, "1.0");
        },
        other => panic!("unexpected {:?}", other),
    }
    store.put_manifest(&"a".to_string(), &version("1.0"), "Manifest-Version: 1.0\n".to_string());
    match cached_manifest(&store, "a".to_string(), version("1.0")) {
        Err(AppError::CachedArchiveMissingWarning(name, v)) => {
            assert_eq!(name, "a");
            assert_eq!(v, "1.0");
        },
        other => panic!("unexpected {:?}", other),
    }
    store.put_archive(&"a".to_string(), &version("1.1"), vec![1]);
    assert!(matches!(
        cached_manifest(&store, "a".to_string(), version("1.0")),
        Err(AppError::CachedArchiveMissingWarning(_, _))
    ));
    assert!(matches!(
        cached_manifest(&store, "a".to_string(), version("1.1")),
        Err(AppError::CachedManifestMissingWarning(_, _))
    ));
    store.put_archive(&"a".to_string(), &version("1.0"), vec![1]);
    assert!(cached_manifest(&store, "a".to_string(), version("1.0")).is_ok());
    assert_eq!(store.entries.len(), 2);
}

#[test]
fn putting_again_takes_the_place_of_what_was_there() {
    let mut store = ArtifactStore::new("/c".to_string());
    put(&mut store, "a", "1.0", "");
    store.put_manifest(&"a".to_string(), &version("1.0"), "second".to_string());
    assert_eq!(store.entries.len(), 1);
    assert_eq!(cached_manifest(&store, "a".to_string(), version("1.0")).unwrap(), "second");
    assert_eq!(store.find(&"a".to_string(), &version("1.0")), 0);
    assert_eq!(store.find(&"a".to_string(), &version("2.0")), 1);
}

#[test]
fn digest_of_the_cached_archive() {
    let mut store = ArtifactStore::new("/c".to_string());
    store.put_archive(&"a".to_string(), &version("1.0"), b"abc".to_vec());
    let (digest, kind) = archive_hash_file(&store, &"a".to_string(), &version("1.0")).unwrap();
    assert_eq!(digest, "ba7816bf8f01cfea414140de5dae2223b00361a396177a9cb410ff61f20015ad");
    assert_eq!(kind, "sha256");
    match archive_hash_file(&store, &"b".to_string(), &version("1.0")) {
        Err(AppError::PluginHashFileReadError(path)) => assert_eq!(path, "/c/b--1.0.hpi"),
        other => panic!("unexpected {:?}", other),
    }
}

#[test]
fn fetched_archive_goes_into_the_cache_with_its_manifest() {
    let mut writer = zip::ZipWriter::new(std::io::Cursor::new(Vec::new()));
    writer
        .start_file("META-INF/MANIFEST.MF", zip::write::SimpleFileOptions::default())
        .unwrap();
    writer.write_all(b"Plugin-Dependencies: b:2.0,\r\n c:3.0\r\n").unwrap();
    let bytes = writer.finish().unwrap().into_inner();
    let mut store = ArtifactStore::new("/c".to_string());
    let text = dependency_http(&mut store, "a".to_string(), version("1.0"), bytes.clone()).unwrap();
    assert_eq!(text, "Plugin-Dependencies: b:2.0,c:3.0\n");
    assert_eq!(cached_manifest(&store, "a".to_string(), version("1.0")).unwrap(), text);
    assert_eq!(store.entries[0].archive, Some(bytes));
}

#[test]
fn fetched_bytes_that_are_no_archive_stay_in_the_cache_without_manifest() {
    let mut store = ArtifactStore::new("/c".to_string());
    let r = dependency_http(&mut store, "a".to_string(), version("1.0"), b"junk".to_vec());
    assert!(matches!(r, Err(AppError::PackageUnzipError(_, _))));
    assert_eq!(store.entries.len(), 1);
    assert_eq!(store.entries[0].archive, Some(b"junk".to_vec()));
    assert_eq!(store.entries[0].manifest, None);
    assert!(matches!(
        cached_manifest(&store, "a".to_string(), version("1.0")),
        Err(AppError::CachedManifestMissingWarning(_, _))
    ));
}

#[test]
fn pin_gives_the_version() {
    let pins = vec![request("a", "1.0"), request("b", "2.0"), request("a", "3.0")];
    assert_eq!(effective_version(&pins, &"a".to_string(), &version("0.9")).to_string(), "1.0");
    assert_eq!(effective_version(&pins, &"b".to_string(), &version("0.9")).to_string(), "2.0");
    assert_eq!(effective_version(&pins, &"c".to_string(), &version("0.9")).to_string(), "0.9");
}

#[test]
fn tree_follows_the_manifests() {
    let mut store = ArtifactStore::new("/c".to_string());
    put(&mut store, "a", "1.0", "b:1.0,c:1.0");
    put(&mut store, "b", "1.0", "c:1.0;resolution:=optional");
    put(&mut store, "c", "1.0", "");
    let found = dependency(&vec![], &store, "a".to_string(), &version("1.0")).unwrap();
    assert_eq!(shape(&found), "a@1.0[b@1.0[c@1.0[]],c@1.0[]]");
    let (digest, _) = jenkins_plugin_graph::archive::archive_hash_bytes(&b"a@1.0".to_vec()).unwrap();
    assert_eq!(found.digest_string, digest);
    assert_eq!(found.digest_type, "sha256");
    assert_ne!(found.dependencies[0].digest_string, digest);
}

#[test]
fn missing_artifact_is_named() {
    let mut store = ArtifactStore::new("/c".to_string());
    put(&mut store, "a", "1.0", "b:1.5");
    match dependency(&vec![], &store, "a".to_string(), &version("1.0")) {
        Err(AppError::CachedManifestMissingWarning(name, v)) => {
            assert_eq!(name, "b");
            assert_eq!(v, "1.5");
        },
        other => panic!("unexpected {:?}", other.map(|p| shape(&p))),
    }
    put(&mut store, "b", "1.5", "");
    let found = dependency(&vec![], &store, "a".to_string(), &version("1.0")).unwrap();
    assert_eq!(shape(&found), "a@1.0[b@1.5[]]");
}

#[test]
fn failure_in_a_manifest_ends_the_resolution() {
    let mut store = ArtifactStore::new("/c".to_string());
    put(&mut store, "a", "1.0", "b:1.0,c:1.0");
    put(&mut store, "b", "1.0", "broken");
    put(&mut store, "c", "1.0", "");
    assert!(matches!(
        dependency(&vec![], &store, "a".to_string(), &version("1.0")),
        Err(AppError::RemotePluginDeserializeError(_))
    ));
}

#[test]
fn two_requests_share_a_dependency_at_two_versions() {
    let mut store = ArtifactStore::new("/c".to_string());
    put(&mut store, "A", "1.0", "C:1.0");
    put(&mut store, "B", "1.0", "C:2.0");
    put(&mut store, "C", "1.0", "");
    put(&mut store, "C", "2.0", "");
    let pins = vec![request("A", "1.0"), request("B", "1.0")];
    let graph = resolve_all(&pins, &store).unwrap();
    let out = package_set(&graph, false);
    assert_eq!(listed(&out), vec![pair("A", "1.0"), pair("B", "1.0"), pair("C", "2.0")]);
    assert!(out.iter().all(|p| p.pin));
    let pins = vec![request("B", "1.0"), request("A", "1.0")];
    let graph = resolve_all(&pins, &store).unwrap();
    let out = package_set(&graph, false);
    assert_eq!(listed(&out), vec![pair("A", "1.0"), pair("B", "1.0"), pair("C", "2.0")]);
}

#[test]
fn pin_wins_at_every_depth() {
    let mut store = ArtifactStore::new("/c".to_string());
    put(&mut store, "A", "1.0", "");
    put(&mut store, "B", "1.0", "M:1.0");
    put(&mut store, "M", "1.0", "A:0.9");
    let pins = vec![request("A", "1.0"), request("B", "1.0")];
    let graph = resolve_all(&pins, &store).unwrap();
    assert_eq!(shape(&graph[0]), "A@1.0[]");
    assert_eq!(shape(&graph[1]), "B@1.0[M@1.0[A@1.0[]]]");
    let out = package_set(&graph, false);
    assert_eq!(listed(&out), vec![pair("A", "1.0"), pair("B", "1.0"), pair("M", "1.0")]);
}

#[test]
fn pinned_plugin_that_depends_on_itself_is_a_cycle() {
    let mut store = ArtifactStore::new("/c".to_string());
    put(&mut store, "A", "1.0", "M:1.0");
    put(&mut store, "M", "1.0", "A:0.9");
    put(&mut store, "A", "0.9", "");
    let pins = vec![request("A", "1.0")];
    match resolve_all(&pins, &store) {
        Err(AppError::CyclicDependencyError(name, v)) => {
            assert_eq!(name, "A");
            assert_eq!(v, "1.0");
        },
        other => panic!("unexpected {:?}", other.map(|g| g.len())),
    }
    let found = dependency(&vec![], &store, "A".to_string(), &version("1.0")).unwrap();
    assert_eq!(shape(&found), "A@1.0[M@1.0[A@0.9[]]]");
}

#[test]
fn plugin_that_depends_on_itself_is_a_cycle() {
    let mut store = ArtifactStore::new("/c".to_string());
    put(&mut store, "a", "1.0", "a:1.0");
    assert!(matches!(
        dependency(&vec![], &store, "a".to_string(), &version("1.0")),
        Err(AppError::CyclicDependencyError(_, _))
    ));
}

#[test]
fn same_plugin_twice_in_a_tree_is_no_cycle() {
    let mut store = ArtifactStore::new("/c".to_string());
    put(&mut store, "a", "1.0", "b:1.0,b:1.0,c:1.0");
    put(&mut store, "b", "1.0", "c:1.0");
    put(&mut store, "c", "1.0", "");
    let found = dependency(&vec![], &store, "a".to_string(), &version("1.0")).unwrap();
    assert_eq!(shape(&found), "a@1.0[b@1.0[c@1.0[]],b@1.0[c@1.0[]],c@1.0[]]");
}

#[test]
fn root_only_leaves_out_what_is_referred_to() {
    let mut store = ArtifactStore::new("/c".to_string());
    put(&mut store, "A", "1.0", "B:1.0");
    put(&mut store, "B", "1.0", "");
    let pins = vec![request("A", "1.0"), request("B", "1.0")];
    let graph = resolve_all(&pins, &store).unwrap();
    let out = package_set(&graph, true);
    assert_eq!(listed(&out), vec![pair("A", "1.0")]);
    let all = package_set(&graph, false);
    assert_eq!(listed(&all), vec![pair("A", "1.0"), pair("B", "1.0")]);
    let roots = filter_referenced(&graph);
    assert_eq!(roots.len(), 1);
    assert_eq!(roots[0].name, "A");
}

#[test]
fn referenced_plugins_come_once_in_walking_order() {
    let mut store = ArtifactStore::new("/c".to_string());
    put(&mut store, "r", "1.0", "a:1.0,b:1.0,c:1.0");
    put(&mut store, "a", "1.0", "x:1.0");
    put(&mut store, "b", "1.0", "y:1.0,a:1.0");
    put(&mut store, "c", "1.0", "");
    put(&mut store, "x", "1.0", "");
    put(&mut store, "y", "1.0", "");
    let graph = resolve_all(&vec![request("r", "1.0")], &store).unwrap();
    let names: Vec<String> = flatten_dependencies(&graph).iter().map(|p| p.name.clone()).collect();
    assert_eq!(names, vec!["a", "x", "y", "b", "c"]);
    assert!(flatten_dependencies(&Vec::new()).is_empty());
}

#[test]
fn input_gives_its_requests() {
    let input = Input {
        plugins_hash: vec![
            ("git".to_string(), InputPackage { version: version("5.0") }),
            ("scm-api".to_string(), InputPackage { version: version("2.1-3") }),
        ],
    };
    let requests = input.requests();
    assert_eq!(requests.len(), 2);
    assert_eq!(requests[0].name, "git");
    assert_eq!(requests[1].version.to_string(), "2.1-3");
    assert_eq!(input.clone().plugins_hash.len(), 2);
}
