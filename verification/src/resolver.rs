//! Finding a plugin together with all that it depends on, from what the
//! cache holds.

use crate::archive::{digest_type, hex_text, sha256};
use crate::error::{AppError, AppErrorView};
use crate::input::{
    lemma_dependencies_view, nodes, requests, NodeView, RequestView, ResolvedPackage,
    SatisfiedPackage,
};
use crate::jenkins_plugin_version::{format_version, JenkinsPluginVersion, VersionView};
use crate::manifest::{declared_dependencies, parse_dependencies};
use crate::store::{
    archive_hash_file, cached_manifest, cached_manifest_of, lemma_position_from, position,
    ArtifactStore, EntryView,
};
use vstd::prelude::*;

verus! {

/// The version at which a plugin is looked for: the version of the first pin
/// of that name from position `i` on, or, without one, the version asked for.
pub open spec fn pinned_version_from(
    pins: Seq<RequestView>,
    name: Seq<char>,
    version: VersionView,
    i: int,
) -> VersionView
    decreases pins.len() - i,
{
    if i < 0 || i >= pins.len() {
        version
    } else if pins[i].name == name {
        pins[i].version
    } else {
        pinned_version_from(pins, name, version, i + 1)
    }
}

/// The version at which a plugin is looked for: the one that the pins give
/// to its name, or, where they give none, the version asked for.
pub open spec fn pinned_version(
    pins: Seq<RequestView>,
    name: Seq<char>,
    version: VersionView,
) -> VersionView {
    pinned_version_from(pins, name, version, 0)
}

/// How many cache entries are not being resolved.
pub open spec fn count_idle(active: Seq<bool>) -> nat
    decreases active.len(),
{
    if active.len() == 0 {
        0
    } else {
        count_idle(active.drop_last()) + if active.last() {
            0nat
        } else {
            1nat
        }
    }
}

/// No cache entry is being resolved.
pub open spec fn all_idle(n: nat) -> Seq<bool> {
    Seq::new(n, |i: int| false)
}

/// The tree of a plugin and all that it depends on, as the cache gives it.
///
/// The plugin is looked for at the version that the pins give to its name,
/// whatever version was asked for. Its manifest is the one that the cache
/// has, and its dependencies are those that the manifest declares, each
/// found in the same way, in the order of the manifest. Its digest is that
/// of the archive in the cache.
///
/// `active` says, for each entry of the cache, whether the plugin version of
/// that entry is being resolved further up. A plugin version that depends on
/// itself, through whatever others, is a failure.
/// The first failure met is the outcome, and no part of a tree comes with it.
pub open spec fn resolution(
    pins: Seq<RequestView>,
    entries: Seq<EntryView>,
    active: Seq<bool>,
    name: Seq<char>,
    version: VersionView,
) -> Result<NodeView, AppErrorView>
    decreases count_idle(active), 0nat,
    when active.len() == entries.len()
{
    let effective = pinned_version(pins, name, version);
    let at = position(entries, name, effective);
    match cached_manifest_of(entries, name, effective) {
        Err(e) => Err(e),
        Ok(manifest) => if active[at] {
            Err(AppErrorView::CyclicDependencyError(name, format_version(effective)))
        } else {
            match declared_dependencies(manifest) {
                Err(e) => Err(e),
                Ok(declared) => {
                    proof {
                        lemma_position_from(entries, name, effective, 0);
                        lemma_count_idle_update(active, at);
                    }
                    match resolutions(pins, entries, active.update(at, true), declared, 0) {
                        Err(e) => Err(e),
                        Ok(dependencies) => Ok(
                            NodeView {
                                name,
                                version: effective,
                                dependencies,
                                digest_string: hex_text(sha256(entries[at].archive->0)),
                                digest_type: digest_type(),
                            },
                        ),
                    }
                },
            }
        },
    }
}

/// The trees of the declared dependencies from position `from` on, in their
/// order, or the first failure among them.
pub open spec fn resolutions(
    pins: Seq<RequestView>,
    entries: Seq<EntryView>,
    active: Seq<bool>,
    declared: Seq<RequestView>,
    from: int,
) -> Result<Seq<NodeView>, AppErrorView>
    decreases count_idle(active), 1 + declared.len() - from,
    when active.len() == entries.len()
{
    if from < 0 || from >= declared.len() {
        Ok(Seq::empty())
    } else {
        match resolution(pins, entries, active, declared[from].name, declared[from].version) {
            Err(e) => Err(e),
            Ok(first) => match resolutions(pins, entries, active, declared, from + 1) {
                Err(e) => Err(e),
                Ok(rest) => Ok(seq![first] + rest),
            },
        }
    }
}

/// Whether every plugin in a tree stands at the version that the pins give
/// to its name, if they give it one.
pub open spec fn honours_pins(pins: Seq<RequestView>, node: NodeView) -> bool
    decreases node,
{
    &&& node.version == pinned_version(pins, node.name, node.version)
    &&& forall|i: int|
        0 <= i < node.dependencies.len() ==> honours_pins(pins, #[trigger] node.dependencies[i])
}

/// Taking up an idle entry leaves fewer idle entries.
pub proof fn lemma_count_idle_update(active: Seq<bool>, at: int)
    requires
        0 <= at < active.len(),
        !active[at],
    ensures
        count_idle(active.update(at, true)) < count_idle(active),
    decreases active.len(),
{
    let next = active.update(at, true);
    if at == active.len() - 1 {
        assert(next.drop_last() =~= active.drop_last());
    } else {
        assert(next.drop_last() =~= active.drop_last().update(at, true));
        lemma_count_idle_update(active.drop_last(), at);
    }
}

/// The version that the pins give is a fixed point: asking for it gives it.
pub proof fn lemma_pinned_version_settled(
    pins: Seq<RequestView>,
    name: Seq<char>,
    version: VersionView,
    i: int,
)
    ensures
        pinned_version_from(pins, name, pinned_version_from(pins, name, version, i), i)
            == pinned_version_from(pins, name, version, i),
    decreases pins.len() - i,
{
    if !(i < 0 || i >= pins.len() || pins[i].name == name) {
        lemma_pinned_version_settled(pins, name, version, i + 1);
    }
}

/// A pin is honoured at every depth: in a tree that was resolved, every
/// plugin whose name is pinned stands at the pinned version.
pub proof fn lemma_resolved_honours_pins(
    pins: Seq<RequestView>,
    entries: Seq<EntryView>,
    active: Seq<bool>,
    name: Seq<char>,
    version: VersionView,
)
    requires
        active.len() == entries.len(),
    ensures
        resolution(pins, entries, active, name, version) matches Ok(node) ==> honours_pins(pins, node),
    decreases count_idle(active), 0nat,
{
    let effective = pinned_version(pins, name, version);
    let at = position(entries, name, effective);
    if let Ok(manifest) = cached_manifest_of(entries, name, effective) {
        if !active[at] {
            if let Ok(declared) = declared_dependencies(manifest) {
                lemma_position_from(entries, name, effective, 0);
                lemma_count_idle_update(active, at);
                lemma_each_honours_pins(pins, entries, active.update(at, true), declared, 0);
                lemma_pinned_version_settled(pins, name, version, 0);
            }
        }
    }
}

/// See `lemma_resolved_honours_pins`, for the dependencies of one plugin.
pub proof fn lemma_each_honours_pins(
    pins: Seq<RequestView>,
    entries: Seq<EntryView>,
    active: Seq<bool>,
    declared: Seq<RequestView>,
    from: int,
)
    requires
        active.len() == entries.len(),
    ensures
        resolutions(pins, entries, active, declared, from) matches Ok(found) ==> forall|i: int|
            0 <= i < found.len() ==> honours_pins(pins, #[trigger] found[i]),
    decreases count_idle(active), 1 + declared.len() - from,
{
    if 0 <= from < declared.len() {
        lemma_resolved_honours_pins(
            pins,
            entries,
            active,
            declared[from].name,
            declared[from].version,
        );
        lemma_each_honours_pins(pins, entries, active, declared, from + 1);
    }
}

/// The trees of the declared dependencies come one for each, in their
/// order, each under the name that was declared.
pub proof fn lemma_each_follows_declared(
    pins: Seq<RequestView>,
    entries: Seq<EntryView>,
    active: Seq<bool>,
    declared: Seq<RequestView>,
    from: int,
)
    requires
        active.len() == entries.len(),
        0 <= from <= declared.len(),
    ensures
        resolutions(pins, entries, active, declared, from) matches Ok(found) ==> found.len()
            == declared.len() - from && forall|i: int|
            0 <= i < found.len() ==> (#[trigger] found[i]).name == declared[from + i].name
                && found[i].version == pinned_version(
                pins,
                declared[from + i].name,
                declared[from + i].version,
            ),
    decreases declared.len() - from,
{
    if from < declared.len() {
        lemma_each_follows_declared(pins, entries, active, declared, from + 1);
        if let Ok(first) = resolution(
            pins,
            entries,
            active,
            declared[from].name,
            declared[from].version,
        ) {
            if let Ok(rest) = resolutions(pins, entries, active, declared, from + 1) {
                let found = seq![first] + rest;
                assert forall|i: int| 0 <= i < found.len() implies (#[trigger] found[i]).name
                    == declared[from + i].name && found[i].version == pinned_version(
                    pins,
                    declared[from + i].name,
                    declared[from + i].version,
                ) by {
                    if i > 0 {
                        assert(found[i] == rest[i - 1]);
                    }
                }
            }
        }
    }
}

/// A tree that was resolved has at its root the plugin that was asked for,
/// at the version that the pins give it, with the digest of the archive
/// that the cache holds of it, and below the root one tree for each
/// dependency that the plugin's manifest declares, in the manifest's order.
pub proof fn lemma_resolved_follows_manifest(
    pins: Seq<RequestView>,
    entries: Seq<EntryView>,
    active: Seq<bool>,
    name: Seq<char>,
    version: VersionView,
)
    requires
        active.len() == entries.len(),
    ensures
        resolution(pins, entries, active, name, version) matches Ok(node) ==> {
            let effective = pinned_version(pins, name, version);
            let at = position(entries, name, effective);
            &&& node.name == name
            &&& node.version == effective
            &&& at < entries.len()
            &&& entries[at].archive matches Some(bytes) && node.digest_string == hex_text(
                sha256(bytes),
            )
            &&& node.digest_type == digest_type()
            &&& cached_manifest_of(entries, name, effective) matches Ok(manifest)
                && declared_dependencies(manifest) matches Ok(declared) && node.dependencies.len()
                == declared.len() && forall|i: int|
                0 <= i < declared.len() ==> (#[trigger] node.dependencies[i]).name
                    == declared[i].name
        },
{
    let effective = pinned_version(pins, name, version);
    let at = position(entries, name, effective);
    lemma_position_from(entries, name, effective, 0);
    if let Ok(manifest) = cached_manifest_of(entries, name, effective) {
        if !active[at] {
            if let Ok(declared) = declared_dependencies(manifest) {
                lemma_each_follows_declared(pins, entries, active.update(at, true), declared, 0);
            }
        }
    }
}

/// The version at which a plugin is looked for, see `pinned_version`.
pub fn effective_version(
    specified: &Vec<ResolvedPackage>,
    name: &String,
    version: &JenkinsPluginVersion,
) -> (r: JenkinsPluginVersion)
    ensures
        r@ == pinned_version(requests(specified@), name@, version@),
{
    let mut i: usize = 0;
    while i < specified.len()
        invariant
            i <= specified.len(),
            pinned_version(requests(specified@), name@, version@) == pinned_version_from(
                requests(specified@),
                name@,
                version@,
                i as int,
            ),
        decreases specified.len() - i,
    {
        if specified[i].name == *name {
            return specified[i].version.clone();
        }
        i += 1;
    }
    version.clone()
}

/// Finds a plugin and all that it depends on, see `resolution`.
///
/// `specified` holds the pins: the plugins asked for at the start, each with
/// its version. Where the cache lacks the manifest or the archive of a
/// plugin version that is needed, that is the failure, and it names the
/// plugin version: once the cache has been given both, the call can be made
/// again.
pub fn dependency(
    specified: &Vec<ResolvedPackage>,
    store: &ArtifactStore,
    name: String,
    version: &JenkinsPluginVersion,
) -> (r: Result<SatisfiedPackage, AppError>)
    ensures
        match r {
            Ok(found) => resolution(
                requests(specified@),
                store@.entries,
                all_idle(store@.entries.len()),
                name@,
                version@,
            ) == Ok::<NodeView, AppErrorView>(found@),
            Err(e) => resolution(
                requests(specified@),
                store@.entries,
                all_idle(store@.entries.len()),
                name@,
                version@,
            ) == Err::<NodeView, AppErrorView>(e@),
        },
{
    let mut active: Vec<bool> = Vec::new();
    let mut i: usize = 0;
    while i < store.entries.len()
        invariant
            i <= store.entries.len(),
            active.len() == i,
            forall|j: int| 0 <= j < i ==> !active@[j],
        decreases store.entries.len() - i,
    {
        active.push(false);
        i += 1;
    }
    assert(active@ =~= all_idle(store@.entries.len()));
    resolve_node(specified, store, &mut active, name, version)
}

/// The trees of all the plugins asked for, in their order, each found as
/// `dependency` finds it, with all of them as the pins; or the first failure.
pub fn resolve_all(specified: &Vec<ResolvedPackage>, store: &ArtifactStore) -> (r: Result<
    Vec<SatisfiedPackage>,
    AppError,
>)
    ensures
        match r {
            Ok(graph) => resolutions(
                requests(specified@),
                store@.entries,
                all_idle(store@.entries.len()),
                requests(specified@),
                0,
            ) == Ok::<Seq<NodeView>, AppErrorView>(nodes(graph@)),
            Err(e) => resolutions(
                requests(specified@),
                store@.entries,
                all_idle(store@.entries.len()),
                requests(specified@),
                0,
            ) == Err::<Seq<NodeView>, AppErrorView>(e@),
        },
{
    let ghost pins = requests(specified@);
    let ghost entries = store@.entries;
    let ghost idle = all_idle(entries.len());
    let mut graph: Vec<SatisfiedPackage> = Vec::new();
    let mut i: usize = 0;
    assert(nodes(graph@) =~= Seq::<NodeView>::empty());
    while i < specified.len()
        invariant
            i <= specified.len(),
            pins == requests(specified@),
            entries == store@.entries,
            idle == all_idle(entries.len()),
            resolutions(pins, entries, idle, pins, 0) == match resolutions(
                pins,
                entries,
                idle,
                pins,
                i as int,
            ) {
                Err(e) => Err::<Seq<NodeView>, AppErrorView>(e),
                Ok(rest) => Ok(nodes(graph@) + rest),
            },
        decreases specified.len() - i,
    {
        match dependency(specified, store, specified[i].name.clone(), &specified[i].version) {
            Err(e) => {
                return Err(e);
            },
            Ok(found) => {
                let ghost before = nodes(graph@);
                graph.push(found);
                proof {
                    assert(nodes(graph@) =~= before.push(found@));
                    match resolutions(pins, entries, idle, pins, i + 1) {
                        Ok(rest) => {
                            assert(before + (seq![found@] + rest) =~= nodes(graph@) + rest);
                        },
                        Err(_) => {},
                    }
                }
            },
        }
        i += 1;
    }
    assert(nodes(graph@) + Seq::<NodeView>::empty() =~= nodes(graph@));
    Ok(graph)
}

/// Finds a plugin and all that it depends on, while the plugin versions
/// marked in `active` are being resolved further up.
fn resolve_node(
    specified: &Vec<ResolvedPackage>,
    store: &ArtifactStore,
    active: &mut Vec<bool>,
    name: String,
    version: &JenkinsPluginVersion,
) -> (r: Result<SatisfiedPackage, AppError>)
    requires
        old(active).len() == store.entries.len(),
    ensures
        final(active)@ == old(active)@,
        match r {
            Ok(found) => resolution(requests(specified@), store@.entries, old(active)@, name@, version@)
                == Ok::<NodeView, AppErrorView>(found@),
            Err(e) => resolution(requests(specified@), store@.entries, old(active)@, name@, version@)
                == Err::<NodeView, AppErrorView>(e@),
        },
    decreases count_idle(old(active)@),
{
    let ghost pins = requests(specified@);
    let ghost entries = store@.entries;
    let real_version = effective_version(specified, &name, version);
    let manifest = cached_manifest(store, name.clone(), real_version.clone())?;
    let at = store.find(&name, &real_version);
    proof {
        lemma_position_from(entries, name@, real_version@, 0);
    }
    if active[at] {
        return Err(AppError::CyclicDependencyError(name, real_version.to_string()));
    }
    let declared = parse_dependencies(manifest.as_str())?;
    proof {
        lemma_count_idle_update(active@, at as int);
    }
    active.set(at, true);
    let ghost marked = active@;
    let mut dependencies: Vec<SatisfiedPackage> = Vec::new();
    let mut i: usize = 0;
    assert(nodes(dependencies@) =~= Seq::<NodeView>::empty());
    while i < declared.len()
        invariant
            i <= declared.len(),
            active@ == marked,
            marked.len() == store.entries.len(),
            at < marked.len(),
            old(active)@.len() == marked.len(),
            marked == old(active)@.update(at as int, true),
            !old(active)@[at as int],
            real_version@ == pinned_version(pins, name@, version@),
            at == position(entries, name@, real_version@),
            cached_manifest_of(entries, name@, real_version@) == Ok::<Seq<char>, AppErrorView>(
                manifest@,
            ),
            declared_dependencies(manifest@) == Ok::<Seq<RequestView>, AppErrorView>(
                requests(declared@),
            ),
            entries == store@.entries,
            pins == requests(specified@),
            count_idle(marked) < count_idle(old(active)@),
            resolutions(pins, entries, marked, requests(declared@), 0) == match resolutions(
                pins,
                entries,
                marked,
                requests(declared@),
                i as int,
            ) {
                Err(e) => Err::<Seq<NodeView>, AppErrorView>(e),
                Ok(rest) => Ok(nodes(dependencies@) + rest),
            },
        decreases declared.len() - i,
    {
        let child = resolve_node(
            specified,
            store,
            active,
            declared[i].name.clone(),
            &declared[i].version,
        );
        match child {
            Err(e) => {
                active.set(at, false);
                assert(active@ =~= old(active)@);
                return Err(e);
            },
            Ok(found) => {
                let ghost before = nodes(dependencies@);
                dependencies.push(found);
                proof {
                    assert(nodes(dependencies@) =~= before.push(found@));
                    match resolutions(pins, entries, marked, requests(declared@), i + 1) {
                        Ok(rest) => {
                            assert(before + (seq![found@] + rest) =~= nodes(dependencies@) + rest);
                        },
                        Err(_) => {},
                    }
                }
            },
        }
        i += 1;
    }
    active.set(at, false);
    assert(active@ =~= old(active)@);
    let digest = archive_hash_file(store, &name, &real_version)?;
    let found = SatisfiedPackage {
        name,
        version: real_version,
        dependencies,
        digest_string: digest.0,
        digest_type: digest.1,
    };
    proof {
        lemma_dependencies_view(&found);
        assert(nodes(found.dependencies@) + Seq::<NodeView>::empty() =~= nodes(
            found.dependencies@,
        ));
    }
    Ok(found)
}

} // verus!
