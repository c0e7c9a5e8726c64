//! The failures that the library reports.

use vstd::prelude::*;

verus! {

/// Why an operation of the library failed.
#[derive(Debug)]
pub enum AppError {
    /// The store holds the manifest of the named plugin version, not its archive.
    CachedArchiveMissingWarning(String, String),
    /// The store holds no manifest of the named plugin version.
    CachedManifestMissingWarning(String, String),
    /// The named plugin version depends, directly or not, on itself.
    CyclicDependencyError(String, String),
    /// The manifest in the archive of the named plugin version is no UTF-8 text.
    FileDecodeError(String, String),
    /// The manifest in the archive of the named plugin version could not be read.
    FileReadError(String, String),
    /// The archive of the named plugin version holds no manifest.
    PackageManifestSeekError(String, String),
    /// The archive of the named plugin version is no zip archive.
    PackageUnzipError(String, String),
    /// The archive at the given cache path could not be read for its digest.
    PluginHashFileReadError(String),
    /// The given entry of a dependency line has no `:` between name and version.
    RemotePluginDeserializeError(String),
    /// The given text is no version.
    VersionParseError(String),
}

/// An `AppError` with texts in place of strings.
pub enum AppErrorView {
    CachedArchiveMissingWarning(Seq<char>, Seq<char>),
    CachedManifestMissingWarning(Seq<char>, Seq<char>),
    CyclicDependencyError(Seq<char>, Seq<char>),
    FileDecodeError(Seq<char>, Seq<char>),
    FileReadError(Seq<char>, Seq<char>),
    PackageManifestSeekError(Seq<char>, Seq<char>),
    PackageUnzipError(Seq<char>, Seq<char>),
    PluginHashFileReadError(Seq<char>),
    RemotePluginDeserializeError(Seq<char>),
    VersionParseError(Seq<char>),
}

impl View for AppError {
    type V = AppErrorView;

    open spec fn view(&self) -> AppErrorView {
        match self {
            AppError::CachedArchiveMissingWarning(n, v) => {
                AppErrorView::CachedArchiveMissingWarning(n@, v@)
            },
            AppError::CachedManifestMissingWarning(n, v) => {
                AppErrorView::CachedManifestMissingWarning(n@, v@)
            },
            AppError::CyclicDependencyError(n, v) => AppErrorView::CyclicDependencyError(n@, v@),
            AppError::FileDecodeError(n, v) => AppErrorView::FileDecodeError(n@, v@),
            AppError::FileReadError(n, v) => AppErrorView::FileReadError(n@, v@),
            AppError::PackageManifestSeekError(n, v) => {
                AppErrorView::PackageManifestSeekError(n@, v@)
            },
            AppError::PackageUnzipError(n, v) => AppErrorView::PackageUnzipError(n@, v@),
            AppError::PluginHashFileReadError(p) => AppErrorView::PluginHashFileReadError(p@),
            AppError::RemotePluginDeserializeError(e) => {
                AppErrorView::RemotePluginDeserializeError(e@)
            },
            AppError::VersionParseError(t) => AppErrorView::VersionParseError(t@),
        }
    }
}

impl AppError {
    /// The name of the kind of failure, as it is shown to the user.
    pub fn to_string(&self) -> (r: String)
        ensures
            r@ == match self@ {
                AppErrorView::CachedArchiveMissingWarning(_, _) => "CachedArchiveMissingWarning"@,
                AppErrorView::CachedManifestMissingWarning(_, _) => "CachedManifestMissingWarning"@,
                AppErrorView::CyclicDependencyError(_, _) => "CyclicDependencyError"@,
                AppErrorView::FileDecodeError(_, _) => "FileDecodeError"@,
                AppErrorView::FileReadError(_, _) => "FileReadError"@,
                AppErrorView::PackageManifestSeekError(_, _) => "PackageManifestSeekError"@,
                AppErrorView::PackageUnzipError(_, _) => "PackageUnzipError"@,
                AppErrorView::PluginHashFileReadError(_) => "PluginHashFileReadError"@,
                AppErrorView::RemotePluginDeserializeError(_) => "RemotePluginDeserializeError"@,
                AppErrorView::VersionParseError(_) => "VersionParseError"@,
            },
    {
        let name: &str = match self {
            AppError::CachedArchiveMissingWarning(_, _) => "CachedArchiveMissingWarning",
            AppError::CachedManifestMissingWarning(_, _) => "CachedManifestMissingWarning",
            AppError::CyclicDependencyError(_, _) => "CyclicDependencyError",
            AppError::FileDecodeError(_, _) => "FileDecodeError",
            AppError::FileReadError(_, _) => "FileReadError",
            AppError::PackageManifestSeekError(_, _) => "PackageManifestSeekError",
            AppError::PackageUnzipError(_, _) => "PackageUnzipError",
            AppError::PluginHashFileReadError(_) => "PluginHashFileReadError",
            AppError::RemotePluginDeserializeError(_) => "RemotePluginDeserializeError",
            AppError::VersionParseError(_) => "VersionParseError",
        };
        name.to_owned()
    }
}

} // verus!
