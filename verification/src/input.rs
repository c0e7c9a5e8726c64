//! The packages that are asked for, found and handed out.

use crate::jenkins_plugin_version::{JenkinsPluginVersion, VersionView};
use vstd::prelude::*;

verus! {

/// What is wanted of one plugin.
#[derive(Debug)]
pub struct InputPackage {
    pub version: JenkinsPluginVersion,
}

/// The plugins that are wanted, each name with what is wanted of it. No
/// order among them is meant.
#[derive(Debug)]
pub struct Input {
    pub plugins_hash: Vec<(String, InputPackage)>,
}

/// A plugin by name and version, without its dependencies: a request, a pin,
/// or one entry of a manifest's dependency line.
#[derive(Debug)]
pub struct ResolvedPackage {
    pub name: String,
    pub version: JenkinsPluginVersion,
}

/// A plugin that has been found, together with all that it depends on.
#[derive(Debug)]
pub struct SatisfiedPackage {
    pub name: String,
    pub version: JenkinsPluginVersion,
    pub dependencies: Vec<SatisfiedPackage>,
    pub digest_string: String,
    pub digest_type: String,
}

/// One plugin of the list that is handed out.
#[derive(Debug)]
pub struct FlatPackage {
    pub name: String,
    pub version: JenkinsPluginVersion,
    pub digest_string: String,
    pub digest_type: String,
    pub pin: bool,
}

/// A version as it is written into a package list.
#[derive(Debug)]
pub struct JenkinsPuppetHashVersion {
    pub version: String,
}

/// A `ResolvedPackage` as a mathematical value.
pub struct RequestView {
    pub name: Seq<char>,
    pub version: VersionView,
}

/// A `SatisfiedPackage` as a mathematical value: a tree.
pub struct NodeView {
    pub name: Seq<char>,
    pub version: VersionView,
    pub dependencies: Seq<NodeView>,
    pub digest_string: Seq<char>,
    pub digest_type: Seq<char>,
}

/// A `FlatPackage` as a mathematical value.
pub struct FlatView {
    pub name: Seq<char>,
    pub version: VersionView,
    pub digest_string: Seq<char>,
    pub digest_type: Seq<char>,
    pub pin: bool,
}

impl View for InputPackage {
    type V = VersionView;

    open spec fn view(&self) -> VersionView {
        self.version@
    }
}

impl View for ResolvedPackage {
    type V = RequestView;

    open spec fn view(&self) -> RequestView {
        RequestView { name: self.name@, version: self.version@ }
    }
}

impl View for Input {
    type V = Seq<RequestView>;

    open spec fn view(&self) -> Seq<RequestView> {
        Seq::new(
            self.plugins_hash@.len(),
            |i: int|
                RequestView {
                    name: self.plugins_hash@[i].0@,
                    version: self.plugins_hash@[i].1@,
                },
        )
    }
}

/// The tree that a package and all it depends on make.
pub open spec fn tree_of(package: SatisfiedPackage) -> NodeView
    decreases package,
{
    NodeView {
        name: package.name@,
        version: package.version@,
        dependencies: Seq::new(
            package.dependencies@.len(),
            |i: int|
                if 0 <= i < package.dependencies@.len() {
                    tree_of(package.dependencies@[i])
                } else {
                    arbitrary()
                },
        ),
        digest_string: package.digest_string@,
        digest_type: package.digest_type@,
    }
}

impl View for SatisfiedPackage {
    type V = NodeView;

    open spec fn view(&self) -> NodeView {
        tree_of(*self)
    }
}

impl View for FlatPackage {
    type V = FlatView;

    open spec fn view(&self) -> FlatView {
        FlatView {
            name: self.name@,
            version: self.version@,
            digest_string: self.digest_string@,
            digest_type: self.digest_type@,
            pin: self.pin,
        }
    }
}

impl View for JenkinsPuppetHashVersion {
    type V = Seq<char>;

    open spec fn view(&self) -> Seq<char> {
        self.version@
    }
}

/// The views of a sequence of requests.
pub open spec fn requests(packages: Seq<ResolvedPackage>) -> Seq<RequestView> {
    Seq::new(packages.len(), |i: int| packages[i]@)
}

/// The views of a sequence of trees.
pub open spec fn nodes(packages: Seq<SatisfiedPackage>) -> Seq<NodeView> {
    Seq::new(packages.len(), |i: int| packages[i]@)
}

/// The views of a sequence of list entries.
pub open spec fn flats(packages: Seq<FlatPackage>) -> Seq<FlatView> {
    Seq::new(packages.len(), |i: int| packages[i]@)
}

/// The list entry of a tree's root: its name, version and digest, marked as
/// pinned.
pub open spec fn flat_of(node: NodeView) -> FlatView {
    FlatView {
        name: node.name,
        version: node.version,
        digest_string: node.digest_string,
        digest_type: node.digest_type,
        pin: true,
    }
}

/// The dependencies of a tree are the views of the packages it holds.
pub proof fn lemma_dependencies_view(package: &SatisfiedPackage)
    ensures
        package@.dependencies == nodes(package.dependencies@),
{
    let held = package@.dependencies;
    assert(held.len() == package.dependencies@.len());
    assert forall|i: int| 0 <= i < held.len() implies held[i] == nodes(
        package.dependencies@,
    )[i] by {}
    assert(held =~= nodes(package.dependencies@));
}

impl Clone for InputPackage {
    fn clone(&self) -> (r: Self)
        ensures
            r@ == self@,
    {
        InputPackage { version: self.version.clone() }
    }
}

impl Clone for ResolvedPackage {
    fn clone(&self) -> (r: Self)
        ensures
            r@ == self@,
    {
        ResolvedPackage { name: self.name.clone(), version: self.version.clone() }
    }
}

impl Clone for FlatPackage {
    fn clone(&self) -> (r: Self)
        ensures
            r@ == self@,
    {
        FlatPackage {
            name: self.name.clone(),
            version: self.version.clone(),
            digest_string: self.digest_string.clone(),
            digest_type: self.digest_type.clone(),
            pin: self.pin,
        }
    }
}

impl Clone for SatisfiedPackage {
    fn clone(&self) -> (r: Self)
        ensures
            r@ == self@,
        decreases self,
    {
        let mut dependencies: Vec<SatisfiedPackage> = Vec::new();
        let mut i: usize = 0;
        while i < self.dependencies.len()
            invariant
                i <= self.dependencies.len(),
                dependencies.len() == i,
                forall|j: int| 0 <= j < i ==> dependencies@[j]@ == self.dependencies@[j]@,
            decreases self.dependencies.len() - i,
        {
            dependencies.push(self.dependencies[i].clone());
            i += 1;
        }
        let r = SatisfiedPackage {
            name: self.name.clone(),
            version: self.version.clone(),
            dependencies,
            digest_string: self.digest_string.clone(),
            digest_type: self.digest_type.clone(),
        };
        proof {
            lemma_dependencies_view(&r);
            lemma_dependencies_view(self);
            assert(nodes(r.dependencies@) =~= nodes(self.dependencies@));
        }
        r
    }
}

impl Clone for JenkinsPuppetHashVersion {
    fn clone(&self) -> (r: Self)
        ensures
            r@ == self@,
    {
        JenkinsPuppetHashVersion { version: self.version.clone() }
    }
}

impl Clone for Input {
    fn clone(&self) -> (r: Self)
        ensures
            r@ == self@,
    {
        let mut plugins_hash: Vec<(String, InputPackage)> = Vec::new();
        let mut i: usize = 0;
        while i < self.plugins_hash.len()
            invariant
                i <= self.plugins_hash.len(),
                plugins_hash.len() == i,
                forall|j: int|
                    0 <= j < i ==> plugins_hash@[j].0@ == self.plugins_hash@[j].0@
                        && plugins_hash@[j].1@ == self.plugins_hash@[j].1@,
            decreases self.plugins_hash.len() - i,
        {
            let entry = &self.plugins_hash[i];
            plugins_hash.push((entry.0.clone(), entry.1.clone()));
            i += 1;
        }
        let r = Input { plugins_hash };
        assert(r@ =~= self@);
        r
    }
}

impl PartialEq for SatisfiedPackage {
    fn eq(&self, other: &Self) -> (r: bool) {
        self.name == other.name
    }
}

impl vstd::std_specs::cmp::PartialEqSpecImpl for SatisfiedPackage {
    open spec fn obeys_eq_spec() -> bool {
        true
    }

    open spec fn eq_spec(&self, other: &Self) -> bool {
        self.name@ == other.name@
    }
}

impl PartialEq for FlatPackage {
    fn eq(&self, other: &Self) -> (r: bool) {
        self.name == other.name
    }
}

impl vstd::std_specs::cmp::PartialEqSpecImpl for FlatPackage {
    open spec fn obeys_eq_spec() -> bool {
        true
    }

    open spec fn eq_spec(&self, other: &Self) -> bool {
        self.name@ == other.name@
    }
}

impl Input {
    /// The requests that the input makes: each plugin's name with the version
    /// wanted of it, in the order in which the input holds them.
    pub fn requests(&self) -> (r: Vec<ResolvedPackage>)
        ensures
            requests(r@) == self@,
    {
        let mut out: Vec<ResolvedPackage> = Vec::new();
        let mut i: usize = 0;
        while i < self.plugins_hash.len()
            invariant
                i <= self.plugins_hash.len(),
                out.len() == i,
                forall|j: int| 0 <= j < i ==> out@[j]@ == self@[j],
            decreases self.plugins_hash.len() - i,
        {
            let entry = &self.plugins_hash[i];
            out.push(ResolvedPackage { name: entry.0.clone(), version: entry.1.version.clone() });
            i += 1;
        }
        assert(requests(out@) =~= self@);
        out
    }
}

} // verus!
