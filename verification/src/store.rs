//! The cache of plugin artifacts: for each plugin version an archive and
//! the manifest taken out of it, either of which may be missing.

use crate::archive::{
    archive_hash_bytes, digest_type, hex_text, manifest_from_archive, manifest_of_archive, sha256,
};
use crate::error::{AppError, AppErrorView};
use crate::jenkins_plugin_version::{format_version, JenkinsPluginVersion, VersionView};
use crate::text::{append_chars, chars_of, replace, replace_text, string_of};
use vstd::prelude::*;

verus! {

/// What the cache holds of one plugin version.
#[derive(Debug)]
pub struct CacheEntry {
    pub name: String,
    pub version: JenkinsPluginVersion,
    /// The bytes of the archive, where the cache holds it.
    pub archive: Option<Vec<u8>>,
    /// The normalised text of the manifest, where the cache holds it.
    pub manifest: Option<String>,
}

/// The cache: the directory it lives in, and what it holds.
#[derive(Debug)]
pub struct ArtifactStore {
    pub cache_dir: String,
    pub entries: Vec<CacheEntry>,
}

/// A `CacheEntry` as a mathematical value.
pub struct EntryView {
    pub name: Seq<char>,
    pub version: VersionView,
    pub archive: Option<Seq<u8>>,
    pub manifest: Option<Seq<char>>,
}

/// An `ArtifactStore` as a mathematical value.
pub struct StoreView {
    pub cache_dir: Seq<char>,
    pub entries: Seq<EntryView>,
}

impl View for CacheEntry {
    type V = EntryView;

    open spec fn view(&self) -> EntryView {
        EntryView {
            name: self.name@,
            version: self.version@,
            archive: match self.archive {
                Some(bytes) => Some(bytes@),
                None => None,
            },
            manifest: match self.manifest {
                Some(text) => Some(text@),
                None => None,
            },
        }
    }
}

impl View for ArtifactStore {
    type V = StoreView;

    open spec fn view(&self) -> StoreView {
        StoreView {
            cache_dir: self.cache_dir@,
            entries: Seq::new(self.entries@.len(), |i: int| self.entries@[i]@),
        }
    }
}

/// The place of the first entry at or after `i` for the named plugin
/// version, or the number of entries where there is none.
pub open spec fn position_from(
    entries: Seq<EntryView>,
    name: Seq<char>,
    version: VersionView,
    i: int,
) -> int
    decreases entries.len() - i,
{
    if i < 0 || i >= entries.len() {
        entries.len() as int
    } else if entries[i].name == name && entries[i].version == version {
        i
    } else {
        position_from(entries, name, version, i + 1)
    }
}

/// The place of the entry for the named plugin version, or the number of
/// entries where there is none.
pub open spec fn position(entries: Seq<EntryView>, name: Seq<char>, version: VersionView) -> int {
    position_from(entries, name, version, 0)
}

/// The entries with the archive of the named plugin version set to `bytes`.
pub open spec fn with_archive(
    entries: Seq<EntryView>,
    name: Seq<char>,
    version: VersionView,
    bytes: Seq<u8>,
) -> Seq<EntryView> {
    let at = position(entries, name, version);
    if at < entries.len() {
        entries.update(at, EntryView { archive: Some(bytes), ..entries[at] })
    } else {
        entries.push(EntryView { name, version, archive: Some(bytes), manifest: None })
    }
}

/// The entries with the manifest of the named plugin version set to `text`.
pub open spec fn with_manifest(
    entries: Seq<EntryView>,
    name: Seq<char>,
    version: VersionView,
    text: Seq<char>,
) -> Seq<EntryView> {
    let at = position(entries, name, version);
    if at < entries.len() {
        entries.update(at, EntryView { manifest: Some(text), ..entries[at] })
    } else {
        entries.push(EntryView { name, version, archive: None, manifest: Some(text) })
    }
}

/// The manifest of the named plugin version as the cache has it. The cache
/// has it only where it holds both the manifest and the archive.
pub open spec fn cached_manifest_of(
    entries: Seq<EntryView>,
    name: Seq<char>,
    version: VersionView,
) -> Result<Seq<char>, AppErrorView> {
    let at = position(entries, name, version);
    if at >= entries.len() || entries[at].manifest is None {
        Err(AppErrorView::CachedManifestMissingWarning(name, format_version(version)))
    } else if entries[at].archive is None {
        Err(AppErrorView::CachedArchiveMissingWarning(name, format_version(version)))
    } else {
        Ok(entries[at].manifest->0)
    }
}

/// The path of the archive of the named plugin version in the cache.
pub open spec fn archive_path(cache_dir: Seq<char>, name: Seq<char>, version: VersionView) -> Seq<
    char,
> {
    cache_dir + "/"@ + name + "--"@ + format_version(version) + ".hpi"@
}

/// The path of the manifest of the named plugin version in the cache.
pub open spec fn manifest_path(cache_dir: Seq<char>, name: Seq<char>, version: VersionView) -> Seq<
    char,
> {
    cache_dir + "/"@ + name + "--"@ + format_version(version) + ".mf"@
}

/// The address from which the archive of the named plugin version is fetched.
pub open spec fn download_url(name: Seq<char>, version: VersionView) -> Seq<char> {
    "https://get.jenkins.io/plugins/"@ + name + "/"@ + format_version(version) + "/"@ + name
        + ".hpi"@
}

/// The digest of the archive of the named plugin version as the cache has it.
pub open spec fn cached_digest_of(store: StoreView, name: Seq<char>, version: VersionView) -> Result<
    (Seq<char>, Seq<char>),
    AppErrorView,
> {
    let at = position(store.entries, name, version);
    if at < store.entries.len() && store.entries[at].archive is Some {
        Ok((hex_text(sha256(store.entries[at].archive->0)), digest_type()))
    } else {
        Err(AppErrorView::PluginHashFileReadError(archive_path(store.cache_dir, name, version)))
    }
}

/// What `position_from` returns: a place at or after `i`, and where it is a
/// place among the entries, the entry there is for the plugin version.
pub proof fn lemma_position_from(
    entries: Seq<EntryView>,
    name: Seq<char>,
    version: VersionView,
    i: int,
)
    requires
        0 <= i <= entries.len(),
    ensures
        i <= position_from(entries, name, version, i) <= entries.len(),
        position_from(entries, name, version, i) < entries.len() ==> {
            let at = position_from(entries, name, version, i);
            entries[at].name == name && entries[at].version == version
        },
        forall|j: int|
            i <= j < position_from(entries, name, version, i) ==> !(entries[j].name == name
                && entries[j].version == version),
    decreases entries.len() - i,
{
    if i < entries.len() && !(entries[i].name == name && entries[i].version == version) {
        lemma_position_from(entries, name, version, i + 1);
    }
}

/// The first place with an entry for the plugin version is its position.
pub proof fn lemma_position_is(
    entries: Seq<EntryView>,
    name: Seq<char>,
    version: VersionView,
    i: int,
    at: int,
)
    requires
        0 <= i <= at <= entries.len(),
        at < entries.len() ==> entries[at].name == name && entries[at].version == version,
        forall|j: int|
            i <= j < at ==> !(entries[j].name == name && entries[j].version == version),
    ensures
        position_from(entries, name, version, i) == at,
    decreases at - i,
{
    if i < at {
        lemma_position_is(entries, name, version, i + 1, at);
    }
}

/// Setting a file of one plugin version leaves what the cache has of every
/// other plugin version as it was.
pub proof fn lemma_put_keeps_others(
    entries: Seq<EntryView>,
    name: Seq<char>,
    version: VersionView,
    bytes: Seq<u8>,
    text: Seq<char>,
    other_name: Seq<char>,
    other_version: VersionView,
)
    requires
        !(other_name == name && other_version == version),
    ensures
        cached_manifest_of(with_archive(entries, name, version, bytes), other_name, other_version)
            == cached_manifest_of(entries, other_name, other_version),
        cached_manifest_of(with_manifest(entries, name, version, text), other_name, other_version)
            == cached_manifest_of(entries, other_name, other_version),
{
    lemma_position_from(entries, name, version, 0);
    lemma_position_from(entries, other_name, other_version, 0);
    let other = position(entries, other_name, other_version);
    let first = with_archive(entries, name, version, bytes);
    let second = with_manifest(entries, name, version, text);
    if other < entries.len() {
        lemma_position_is(first, other_name, other_version, 0, other);
        lemma_position_is(second, other_name, other_version, 0, other);
    } else {
        lemma_position_is(first, other_name, other_version, 0, first.len() as int);
        lemma_position_is(second, other_name, other_version, 0, second.len() as int);
    }
}

/// Once an archive and then a manifest have been set for a plugin version,
/// the cache has that manifest for it.
pub proof fn lemma_cached_after_fetch(
    entries: Seq<EntryView>,
    name: Seq<char>,
    version: VersionView,
    bytes: Seq<u8>,
    text: Seq<char>,
)
    ensures
        cached_manifest_of(
            with_manifest(with_archive(entries, name, version, bytes), name, version, text),
            name,
            version,
        ) == Ok::<Seq<char>, AppErrorView>(text),
{
    let first = with_archive(entries, name, version, bytes);
    let second = with_manifest(first, name, version, text);
    lemma_position_from(entries, name, version, 0);
    let at = position(entries, name, version);
    lemma_position_is(first, name, version, 0, at);
    lemma_position_is(second, name, version, 0, at);
}

/// The three texts put together around the name and version of a plugin.
fn place(first: &str, name: &String, second: &str, version: &JenkinsPluginVersion, third: &str) -> (r:
    Vec<char>)
    ensures
        r@ == first@ + name@ + second@ + format_version(version@) + third@,
{
    let mut out = chars_of(first);
    append_chars(&mut out, &chars_of(name.as_str()));
    append_chars(&mut out, &chars_of(second));
    append_chars(&mut out, &version.to_chars());
    append_chars(&mut out, &chars_of(third));
    out
}

/// The cache directory as it was given, with every `$HOME` in it replaced by
/// the home directory.
pub fn expand_home(cache_dir: &str, home: &str) -> (r: String)
    ensures
        r@ == replace(cache_dir@, "$HOME"@, home@),
{
    string_of(&replace_text(&chars_of(cache_dir), &chars_of("$HOME"), &chars_of(home)))
}

/// The path of the archive of the named plugin version in the cache.
pub fn archive_cache_path(cache_dir: &String, name: &String, version: &JenkinsPluginVersion) -> (r:
    String)
    ensures
        r@ == archive_path(cache_dir@, name@, version@),
{
    let mut out = chars_of(cache_dir.as_str());
    append_chars(&mut out, &place("/", name, "--", version, ".hpi"));
    assert(out@ =~= archive_path(cache_dir@, name@, version@));
    string_of(&out)
}

/// The path of the manifest of the named plugin version in the cache.
pub fn manifest_cache_path(cache_dir: &String, name: &String, version: &JenkinsPluginVersion) -> (r:
    String)
    ensures
        r@ == manifest_path(cache_dir@, name@, version@),
{
    let mut out = chars_of(cache_dir.as_str());
    append_chars(&mut out, &place("/", name, "--", version, ".mf"));
    assert(out@ =~= manifest_path(cache_dir@, name@, version@));
    string_of(&out)
}

/// The address from which the archive of the named plugin version is fetched.
pub fn plugin_url(name: &String, version: &JenkinsPluginVersion) -> (r: String)
    ensures
        r@ == download_url(name@, version@),
{
    let mut out = place("https://get.jenkins.io/plugins/", name, "/", version, "/");
    append_chars(&mut out, &chars_of(name.as_str()));
    append_chars(&mut out, &chars_of(".hpi"));
    assert(out@ =~= download_url(name@, version@));
    string_of(&out)
}

impl Clone for CacheEntry {
    fn clone(&self) -> (r: Self)
        ensures
            r@ == self@,
    {
        CacheEntry {
            name: self.name.clone(),
            version: self.version.clone(),
            archive: match &self.archive {
                Some(bytes) => Some(bytes.clone()),
                None => None,
            },
            manifest: match &self.manifest {
                Some(text) => Some(text.clone()),
                None => None,
            },
        }
    }
}

impl ArtifactStore {
    /// A cache in the given directory that holds nothing yet.
    pub fn new(cache_dir: String) -> (r: ArtifactStore)
        ensures
            r@.cache_dir == cache_dir@,
            r@.entries.len() == 0,
    {
        ArtifactStore { cache_dir, entries: Vec::new() }
    }

    /// The place of the entry for the named plugin version, or the number of
    /// entries where there is none.
    pub fn find(&self, name: &String, version: &JenkinsPluginVersion) -> (r: usize)
        ensures
            r == position(self@.entries, name@, version@),
            r <= self.entries.len(),
    {
        let mut i: usize = 0;
        while i < self.entries.len()
            invariant
                i <= self.entries.len(),
                position(self@.entries, name@, version@) == position_from(
                    self@.entries,
                    name@,
                    version@,
                    i as int,
                ),
            decreases self.entries.len() - i,
        {
            if self.entries[i].name == *name && self.entries[i].version.same(version) {
                return i;
            }
            i += 1;
        }
        i
    }

    /// Puts the bytes of an archive into the cache, in place of what the
    /// cache held as the archive of that plugin version.
    pub fn put_archive(&mut self, name: &String, version: &JenkinsPluginVersion, bytes: Vec<u8>)
        ensures
            final(self)@.cache_dir == old(self)@.cache_dir,
            final(self)@.entries == with_archive(old(self)@.entries, name@, version@, bytes@),
    {
        let at = self.find(name, version);
        if at < self.entries.len() {
            let manifest = match &self.entries[at].manifest {
                Some(text) => Some(text.clone()),
                None => None,
            };
            let entry = CacheEntry {
                name: name.clone(),
                version: version.clone(),
                archive: Some(bytes),
                manifest,
            };
            proof {
                lemma_position_from(old(self)@.entries, name@, version@, 0);
            }
            self.entries.set(at, entry);
        } else {
            self.entries.push(
                CacheEntry {
                    name: name.clone(),
                    version: version.clone(),
                    archive: Some(bytes),
                    manifest: None,
                },
            );
        }
        assert(self@.entries =~= with_archive(old(self)@.entries, name@, version@, bytes@));
    }

    /// Puts the text of a manifest into the cache, in place of what the cache
    /// held as the manifest of that plugin version.
    pub fn put_manifest(&mut self, name: &String, version: &JenkinsPluginVersion, text: String)
        ensures
            final(self)@.cache_dir == old(self)@.cache_dir,
            final(self)@.entries == with_manifest(old(self)@.entries, name@, version@, text@),
    {
        let at = self.find(name, version);
        if at < self.entries.len() {
            let archive = match &self.entries[at].archive {
                Some(bytes) => Some(bytes.clone()),
                None => None,
            };
            let entry = CacheEntry {
                name: name.clone(),
                version: version.clone(),
                archive,
                manifest: Some(text),
            };
            proof {
                lemma_position_from(old(self)@.entries, name@, version@, 0);
            }
            self.entries.set(at, entry);
        } else {
            self.entries.push(
                CacheEntry {
                    name: name.clone(),
                    version: version.clone(),
                    archive: None,
                    manifest: Some(text),
                },
            );
        }
        assert(self@.entries =~= with_manifest(old(self)@.entries, name@, version@, text@));
    }
}

/// The manifest of the named plugin version as the cache has it: its text
/// where the cache holds both the manifest and the archive, else which of
/// the two is missing, the manifest first.
pub fn cached_manifest(store: &ArtifactStore, name: String, version: JenkinsPluginVersion) -> (r:
    Result<String, AppError>)
    ensures
        match r {
            Ok(text) => cached_manifest_of(store@.entries, name@, version@) == Ok::<
                Seq<char>,
                AppErrorView,
            >(text@),
            Err(e) => cached_manifest_of(store@.entries, name@, version@) == Err::<
                Seq<char>,
                AppErrorView,
            >(e@),
        },
{
    let at = store.find(&name, &version);
    if at >= store.entries.len() {
        return Err(AppError::CachedManifestMissingWarning(name, version.to_string()));
    }
    match &store.entries[at].manifest {
        None => Err(AppError::CachedManifestMissingWarning(name, version.to_string())),
        Some(text) => {
            if store.entries[at].archive.is_none() {
                Err(AppError::CachedArchiveMissingWarning(name, version.to_string()))
            } else {
                Ok(text.clone())
            }
        },
    }
}

/// The digest of the archive of the named plugin version as the cache holds
/// it, or the path at which the archive is missing.
pub fn archive_hash_file(store: &ArtifactStore, name: &String, version: &JenkinsPluginVersion) -> (r:
    Result<(String, String), AppError>)
    ensures
        match r {
            Ok(digest) => cached_digest_of(store@, name@, version@) == Ok::<
                (Seq<char>, Seq<char>),
                AppErrorView,
            >((digest.0@, digest.1@)),
            Err(e) => cached_digest_of(store@, name@, version@) == Err::<
                (Seq<char>, Seq<char>),
                AppErrorView,
            >(e@),
        },
{
    let at = store.find(name, version);
    if at < store.entries.len() {
        match &store.entries[at].archive {
            Some(bytes) => {
                return archive_hash_bytes(bytes);
            },
            None => {},
        }
    }
    Err(AppError::PluginHashFileReadError(archive_cache_path(&store.cache_dir, name, version)))
}

/// Takes in the archive that was fetched for the named plugin version: the
/// archive goes into the cache, its manifest is read out of it and
/// normalised, and goes into the cache too. Where the manifest cannot be
/// read, the cache keeps the archive, and the manifest it had.
pub fn dependency_http(
    store: &mut ArtifactStore,
    name: String,
    version: JenkinsPluginVersion,
    response: Vec<u8>,
) -> (r: Result<String, AppError>)
    ensures
        final(store)@.cache_dir == old(store)@.cache_dir,
        match r {
            Ok(text) => manifest_of_archive(response@, name@, format_version(version@)) == Ok::<
                Seq<char>,
                AppErrorView,
            >(text@) && final(store)@.entries == with_manifest(
                with_archive(old(store)@.entries, name@, version@, response@),
                name@,
                version@,
                text@,
            ),
            Err(e) => manifest_of_archive(response@, name@, format_version(version@)) == Err::<
                Seq<char>,
                AppErrorView,
            >(e@) && final(store)@.entries == with_archive(
                old(store)@.entries,
                name@,
                version@,
                response@,
            ),
        },
{
    store.put_archive(&name, &version, response.clone());
    let text = manifest_from_archive(response, &name, &version)?;
    store.put_manifest(&name, &version, text.clone());
    Ok(text)
}

} // verus!
