//! What is read out of a plugin's archive: the manifest that it holds and
//! the digest of its bytes. The zip format and the hash function are those
//! of the `zip` and `sha2` crates; what is stated of them here is taken on
//! trust.

use crate::error::{AppError, AppErrorView};
use crate::jenkins_plugin_version::{format_version, JenkinsPluginVersion};
use crate::manifest::{normalize, normalize_manifest};
use crate::text::string_of;
use sha2::Digest;
use std::io::Read;
use vstd::prelude::*;

verus! {

/// `FromUtf8Error` of the standard library, of which nothing is known here.
#[verifier::external_type_specification]
#[verifier::external_body]
pub struct ExFromUtf8Error(std::string::FromUtf8Error);

/// `ZipError` of the `zip` crate, of which nothing is known here.
#[verifier::external_type_specification]
#[verifier::external_body]
pub struct ExZipError(zip::result::ZipError);

/// `Cursor` of the standard library, of which nothing is known here.
#[verifier::external_type_specification]
#[verifier::external_body]
#[verifier::reject_recursive_types(T)]
pub struct ExCursor<T>(std::io::Cursor<T>);

/// `ZipArchive` of the `zip` crate: an archive that was opened. Of its
/// inside nothing is known here but the bytes it was made from.
#[verifier::external_type_specification]
#[verifier::external_body]
#[verifier::reject_recursive_types(R)]
pub struct ExZipArchive<R>(zip::ZipArchive<R>);

/// One file inside an opened archive, not yet read: a `ZipFile` of the `zip`
/// crate, which borrows the archive it was found in.
#[verifier::external_body]
pub struct ArchiveEntry<'a> {
    file: zip::read::ZipFile<'a, std::io::Cursor<Vec<u8>>>,
}

/// The SHA-256 digest of a sequence of bytes, as the `sha2` crate computes it.
pub uninterp spec fn sha256(data: Seq<u8>) -> Seq<u8>;

/// Whether the `zip` crate accepts the bytes as an archive.
pub uninterp spec fn zip_opens(bytes: Seq<u8>) -> bool;

/// Whether the `zip` crate finds, in the archive that the bytes make, a file
/// of the given name that it can start to read.
pub uninterp spec fn zip_has_entry(bytes: Seq<u8>, name: Seq<char>) -> bool;

/// What the `zip` crate reads out of the file of the given name in the
/// archive that the bytes make, or `None` where reading it fails.
pub uninterp spec fn zip_entry_bytes(bytes: Seq<u8>, name: Seq<char>) -> Option<Seq<u8>>;

/// The bytes that an opened archive was made from.
pub uninterp spec fn archive_bytes(archive: zip::ZipArchive<std::io::Cursor<Vec<u8>>>) -> Seq<u8>;

/// The bytes of the archive in which an entry was found, and the entry's name.
pub uninterp spec fn entry_source(entry: ArchiveEntry<'_>) -> (Seq<u8>, Seq<char>);

/// `String::from_utf8` of the standard library: it succeeds on the byte
/// sequences that are UTF-8, with the text that they encode.
pub assume_specification[ String::from_utf8 ](vec: Vec<u8>) -> (r: Result<
    String,
    std::string::FromUtf8Error,
>)
    ensures
        r is Ok <==> vstd::utf8::valid_utf8(vec@),
        r matches Ok(s) ==> s@ == vstd::utf8::decode_utf8(vec@),
;

/// `Sha256::digest` of the `sha2` crate. The digest depends on the bytes
/// alone; nothing more is claimed of it.
#[verifier::external_body]
fn sha256_bytes(data: &Vec<u8>) -> (r: Vec<u8>)
    ensures
        r@ == sha256(data@),
{
    sha2::Sha256::digest(data).to_vec()
}

/// `ZipArchive::new` of the `zip` crate, on bytes held in memory. Whether it
/// succeeds depends on the bytes alone, and the archive it gives is that of
/// the bytes.
#[verifier::external_body]
fn open_archive(bytes: Vec<u8>) -> (r: Result<
    zip::ZipArchive<std::io::Cursor<Vec<u8>>>,
    zip::result::ZipError,
>)
    ensures
        r is Ok <==> zip_opens(bytes@),
        r matches Ok(archive) ==> archive_bytes(archive) == bytes@,
{
    zip::ZipArchive::new(std::io::Cursor::new(bytes))
}

/// `ZipArchive::by_name` of the `zip` crate. Whether it succeeds depends on
/// the archive's bytes and the name alone, and the entry it gives is the
/// one of that name in that archive.
#[verifier::external_body]
fn find_entry<'a>(
    archive: &'a mut zip::ZipArchive<std::io::Cursor<Vec<u8>>>,
    name: &str,
) -> (r: Result<ArchiveEntry<'a>, zip::result::ZipError>)
    ensures
        r is Ok <==> zip_has_entry(archive_bytes(*old(archive)), name@),
        r matches Ok(entry) ==> entry_source(entry) == (archive_bytes(*old(archive)), name@),
{
    archive.by_name(name).map(|file| ArchiveEntry { file })
}

/// `read_to_end` on a `ZipFile` of the `zip` crate, which takes the entry
/// whole. What it reads, and whether it fails, depends on the archive's
/// bytes and the entry's name alone.
#[verifier::external_body]
fn read_entry<'a>(entry: ArchiveEntry<'a>) -> (r: Option<Vec<u8>>)
    ensures
        match r {
            Some(contents) => zip_entry_bytes(entry_source(entry).0, entry_source(entry).1)
                == Some(contents@),
            None => zip_entry_bytes(entry_source(entry).0, entry_source(entry).1) is None,
        },
{
    let mut entry = entry;
    let mut contents: Vec<u8> = Vec::new();
    entry.file.read_to_end(&mut contents).ok().map(|_| contents)
}

/// The name under which an archive holds its manifest.
pub open spec fn manifest_entry_name() -> Seq<char> {
    "META-INF/MANIFEST.MF"@
}

/// The name of the digest that is computed of archives.
pub open spec fn digest_type() -> Seq<char> {
    "sha256"@
}

/// The character of a number below sixteen in lower-case hexadecimal.
pub open spec fn hex_char(d: int) -> char {
    if d == 0 {
        '0'
    } else if d == 1 {
        '1'
    } else if d == 2 {
        '2'
    } else if d == 3 {
        '3'
    } else if d == 4 {
        '4'
    } else if d == 5 {
        '5'
    } else if d == 6 {
        '6'
    } else if d == 7 {
        '7'
    } else if d == 8 {
        '8'
    } else if d == 9 {
        '9'
    } else if d == 10 {
        'a'
    } else if d == 11 {
        'b'
    } else if d == 12 {
        'c'
    } else if d == 13 {
        'd'
    } else if d == 14 {
        'e'
    } else {
        'f'
    }
}

/// Bytes written in lower-case hexadecimal, two characters for each byte.
pub open spec fn hex_text(bytes: Seq<u8>) -> Seq<char>
    decreases bytes.len(),
{
    if bytes.len() == 0 {
        Seq::empty()
    } else {
        hex_text(bytes.drop_last()).push(hex_char(bytes.last() as int / 16)).push(
            hex_char(bytes.last() as int % 16),
        )
    }
}

/// What reading the manifest out of the file that an archive holds under
/// the manifest's name gives for the named plugin version: the normalised
/// text that the bytes encode, or the failure to decode them.
pub open spec fn manifest_of_contents(
    contents: Seq<u8>,
    name: Seq<char>,
    version: Seq<char>,
) -> Result<Seq<char>, AppErrorView> {
    if vstd::utf8::valid_utf8(contents) {
        Ok(normalize(vstd::utf8::decode_utf8(contents)))
    } else {
        Err(AppErrorView::FileDecodeError(name, version))
    }
}

/// What reading the manifest out of an archive gives for the named plugin
/// version: the manifest's normalised text, or the first step that fails.
pub open spec fn manifest_of_archive(bytes: Seq<u8>, name: Seq<char>, version: Seq<char>) -> Result<
    Seq<char>,
    AppErrorView,
> {
    if !zip_opens(bytes) {
        Err(AppErrorView::PackageUnzipError(name, version))
    } else if !zip_has_entry(bytes, manifest_entry_name()) {
        Err(AppErrorView::PackageManifestSeekError(name, version))
    } else {
        match zip_entry_bytes(bytes, manifest_entry_name()) {
            None => Err(AppErrorView::FileReadError(name, version)),
            Some(contents) => manifest_of_contents(contents, name, version),
        }
    }
}

/// The character of a number below sixteen in lower-case hexadecimal.
fn hex_digit(d: u8) -> (r: char)
    requires
        d < 16,
    ensures
        r == hex_char(d as int),
{
    if d == 0 {
        '0'
    } else if d == 1 {
        '1'
    } else if d == 2 {
        '2'
    } else if d == 3 {
        '3'
    } else if d == 4 {
        '4'
    } else if d == 5 {
        '5'
    } else if d == 6 {
        '6'
    } else if d == 7 {
        '7'
    } else if d == 8 {
        '8'
    } else if d == 9 {
        '9'
    } else if d == 10 {
        'a'
    } else if d == 11 {
        'b'
    } else if d == 12 {
        'c'
    } else if d == 13 {
        'd'
    } else if d == 14 {
        'e'
    } else {
        'f'
    }
}

/// Bytes written in lower-case hexadecimal.
pub fn hex_string(bytes: &Vec<u8>) -> (r: String)
    ensures
        r@ == hex_text(bytes@),
{
    let mut out: Vec<char> = Vec::new();
    let mut i: usize = 0;
    assert(bytes@.take(0) =~= Seq::<u8>::empty());
    while i < bytes.len()
        invariant
            i <= bytes.len(),
            out@ == hex_text(bytes@.take(i as int)),
        decreases bytes.len() - i,
    {
        let b = bytes[i];
        assert(bytes@.take(i + 1).drop_last() =~= bytes@.take(i as int));
        out.push(hex_digit(b / 16));
        out.push(hex_digit(b % 16));
        i += 1;
    }
    assert(bytes@.take(bytes.len() as int) =~= bytes@);
    string_of(&out)
}

/// The digest of an archive's bytes: their SHA-256 digest in lower-case
/// hexadecimal, and the name of that kind of digest. It never fails.
pub fn archive_hash_bytes(buffer: &Vec<u8>) -> (r: Result<(String, String), AppError>)
    ensures
        r matches Ok(digest) && digest.0@ == hex_text(sha256(buffer@)) && digest.1@ == digest_type(),
{
    let digest = sha256_bytes(buffer);
    Ok((hex_string(&digest), "sha256".to_owned()))
}

/// The manifest that the bytes of the manifest's file encode, normalised;
/// `name` and `version` say whose it is, for the failure.
pub fn manifest_from_entry(contents: Vec<u8>, name: &String, version: &JenkinsPluginVersion) -> (r:
    Result<String, AppError>)
    ensures
        match r {
            Ok(text) => manifest_of_contents(contents@, name@, format_version(version@)) == Ok::<
                Seq<char>,
                AppErrorView,
            >(text@),
            Err(e) => manifest_of_contents(contents@, name@, format_version(version@)) == Err::<
                Seq<char>,
                AppErrorView,
            >(e@),
        },
{
    match String::from_utf8(contents) {
        Ok(text) => Ok(normalize_manifest(text.as_str())),
        Err(_) => Err(AppError::FileDecodeError(name.clone(), version.to_string())),
    }
}

/// The manifest that an archive holds, normalised; `name` and `version` say
/// whose archive it is, for the failure.
pub fn manifest_from_archive(bytes: Vec<u8>, name: &String, version: &JenkinsPluginVersion) -> (r:
    Result<String, AppError>)
    ensures
        match r {
            Ok(text) => manifest_of_archive(bytes@, name@, format_version(version@)) == Ok::<
                Seq<char>,
                AppErrorView,
            >(text@),
            Err(e) => manifest_of_archive(bytes@, name@, format_version(version@)) == Err::<
                Seq<char>,
                AppErrorView,
            >(e@),
        },
{
    let mut archive = match open_archive(bytes) {
        Ok(archive) => archive,
        Err(_) => {
            return Err(AppError::PackageUnzipError(name.clone(), version.to_string()));
        },
    };
    let entry = match find_entry(&mut archive, "META-INF/MANIFEST.MF") {
        Ok(entry) => entry,
        Err(_) => {
            return Err(AppError::PackageManifestSeekError(name.clone(), version.to_string()));
        },
    };
    match read_entry(entry) {
        Some(contents) => manifest_from_entry(contents, name, version),
        None => Err(AppError::FileReadError(name.clone(), version.to_string())),
    }
}

} // verus!
