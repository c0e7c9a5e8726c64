use jenkins_plugin_graph::archive::{
    archive_hash_bytes, hex_string, manifest_from_archive, manifest_from_entry,
};
use jenkins_plugin_graph::error::AppError;
use jenkins_plugin_graph::jenkins_plugin_version::JenkinsPluginVersion;
use std::io::Write;

fn archive_with(files: &[(&str, &[u8])]) -> Vec<u8> {
    let mut writer = zip::ZipWriter::new(std::io::Cursor::new(Vec::new()));
    for (name, contents) in files {
        let options = zip::write::SimpleFileOptions::default()
            .compression_method(zip::CompressionMethod::Deflated);
        writer.start_file(*name, options).unwrap();
        writer.write_all(contents).unwrap();
    }
    writer.finish().unwrap().into_inner()
}

fn one_zero() -> JenkinsPluginVersion {
    JenkinsPluginVersion::parse("1.0").unwrap()
}

#[test]
fn hex_writes_two_lower_case_characters_for_each_byte() {
    assert_eq!(hex_string(&vec![0x00, 0x0f, 0xa0, 0xff, 0x5c]), "000fa0ff5c");
    assert_eq!(hex_string(&Vec::new()), "");
}

#[test]
fn digest_is_sha256_in_hex() {
    let (digest, kind) = archive_hash_bytes(&b"abc".to_vec()).unwrap();
    assert_eq!(digest, "ba7816bf8f01cfea414140de5dae2223b00361a396177a9cb410ff61f20015ad");
    assert_eq!(kind, "sha256");
    let (digest, _) = archive_hash_bytes(&Vec::new()).unwrap();
    assert_eq!(digest, "e3b0c44298fc1c149afbf4c8996fb92427ae41e4649b934ca495991b7852b855");
}

#[test]
fn manifest_is_read_out_of_the_archive_and_normalized() {
    let bytes = archive_with(&[
        ("other.txt", b"nothing"),
        ("META-INF/MANIFEST.MF", b"Manifest-Version: 1.0\r\nPlugin-Dependencies: a:1.0,\r\n b:2.0\r\n"),
    ]);
    let text = manifest_from_archive(bytes, &"p".to_string(), &one_zero()).unwrap();
    assert_eq!(text, "Manifest-Version: 1.0\nPlugin-Dependencies: a:1.0,b:2.0\n");
}

#[test]
fn bytes_that_are_no_archive_are_refused() {
    match manifest_from_archive(b"not a zip archive".to_vec(), &"p".to_string(), &one_zero()) {
        Err(AppError::PackageUnzipError(name, version)) => {
            assert_eq!(name, "p");
            assert_eq!(version, "1.0");
        },
        other => panic!("unexpected {:?}", other),
    }
}

#[test]
fn archive_without_manifest_is_refused() {
    let bytes = archive_with(&[("other.txt", b"nothing")]);
    match manifest_from_archive(bytes, &"p".to_string(), &one_zero()) {
        Err(AppError::PackageManifestSeekError(name, version)) => {
            assert_eq!(name, "p");
            assert_eq!(version, "1.0");
        },
        other => panic!("unexpected {:?}", other),
    }
}

#[test]
fn manifest_that_is_no_utf8_is_refused() {
    let bytes = archive_with(&[("META-INF/MANIFEST.MF", &[0x4b, 0xff, 0xfe])]);
    match manifest_from_archive(bytes, &"p".to_string(), &one_zero()) {
        Err(AppError::FileDecodeError(name, version)) => {
            assert_eq!(name, "p");
            assert_eq!(version, "1.0");
        },
        other => panic!("unexpected {:?}", other),
    }
}

#[test]
fn manifest_that_cannot_be_read_is_refused() {
    let mut bytes = archive_with(&[("META-INF/MANIFEST.MF", b"Manifest-Version: 1.0 and some more text to compress compress compress")]);
    // Spoil the compressed data, which follows the local header and the name.
    let at = 30 + "META-INF/MANIFEST.MF".len();
    for b in bytes[at..at + 8].iter_mut() {
        *b = 0xff;
    }
    assert!(matches!(
        manifest_from_archive(bytes, &"p".to_string(), &one_zero()),
        Err(AppError::FileReadError(_, _))
    ));
}

#[test]
fn manifest_bytes_are_decoded_and_normalized() {
    let text =
        manifest_from_entry("K: caf\u{e9}\r\n s\n".as_bytes().to_vec(), &"p".to_string(), &one_zero())
            .unwrap();
    assert_eq!(text, "K: caf\u{e9}s\n");
    assert!(matches!(
        manifest_from_entry(vec![0xc3], &"p".to_string(), &one_zero()),
        Err(AppError::FileDecodeError(_, _))
    ));
}
