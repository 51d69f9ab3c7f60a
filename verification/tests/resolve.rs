//! Tests of the resolver core: manifest synthesis, lock-file reading, and
//! version extraction.

use cargo_update_installed::{
    manifest_text, parse_lock, resolved_versions, Crate, CrateKind, LockPackage, ResolveError,
};

fn rec(name: &[u8], version: &[u8]) -> Crate {
    Crate { name: name.to_vec(), version: version.to_vec(), kind: CrateKind::CratesIo }
}

#[test]
fn manifest_declares_every_package_unconstrained() {
    let crates = vec![rec(b"foo", b"1.0.0"), rec(b"bar", b"2.0.0")];
    let text = manifest_text(&crates);
    let expected = b"[package]\nname = \"updates\"\nversion = \"0.0.0\"\n\n[dependencies]\nfoo = \"*\"\nbar = \"*\"\n";
    assert_eq!(text, expected.to_vec());
}

#[test]
fn manifest_of_no_packages_is_the_bare_header() {
    let text = manifest_text(&Vec::new());
    let expected = b"[package]\nname = \"updates\"\nversion = \"0.0.0\"\n\n[dependencies]\n";
    assert_eq!(text, expected.to_vec());
}

#[test]
fn lock_reader_extracts_package_entries() {
    let lock = b"version = 3\n\n[[package]]\nname = \"foo\"\nversion = \"1.2.3\"\n\n[[package]]\nname = \"bar\"\nversion = \"0.1.0\"\ndependencies = [\n \"foo\",\n]\n";
    let entries = parse_lock(lock);
    assert_eq!(entries.len(), 2);
    assert_eq!(entries[0].name, b"foo".to_vec());
    assert_eq!(entries[0].version, Some(b"1.2.3".to_vec()));
    assert_eq!(entries[1].name, b"bar".to_vec());
    assert_eq!(entries[1].version, Some(b"0.1.0".to_vec()));
}

#[test]
fn lock_reader_ignores_keys_outside_package_tables() {
    let lock = b"name = \"stray\"\n[metadata]\nname = \"also stray\"\n[[package]]\nname = \"real\"\nversion = \"1.0.0\"\n";
    let entries = parse_lock(lock);
    assert_eq!(entries.len(), 1);
    assert_eq!(entries[0].name, b"real".to_vec());
}

#[test]
fn lock_entry_may_lack_a_version() {
    let entries = parse_lock(b"[[package]]\nname = \"bare\"\n");
    assert_eq!(entries.len(), 1);
    assert_eq!(entries[0].name, b"bare".to_vec());
    assert_eq!(entries[0].version, None);
}

#[test]
fn resolution_extracts_one_version_per_request() {
    let requested = vec![rec(b"bar", b"0.0.9"), rec(b"foo", b"1.0.0")];
    let entries = vec![
        LockPackage { name: b"foo".to_vec(), version: Some(b"1.2.3".to_vec()) },
        LockPackage { name: b"bar".to_vec(), version: Some(b"0.1.0".to_vec()) },
        LockPackage { name: b"unrelated".to_vec(), version: Some(b"9.9.9".to_vec()) },
    ];
    let out = resolved_versions(&requested, &entries).expect("all requests resolve");
    assert_eq!(out.versions.len(), 2);
    assert_eq!(out.versions[0].name, b"bar".to_vec());
    assert_eq!(out.versions[0].version, b"0.1.0".to_vec());
    assert_eq!(out.versions[1].name, b"foo".to_vec());
    assert_eq!(out.versions[1].version, b"1.2.3".to_vec());
    assert!(out.ambiguous.is_empty());
}

#[test]
fn missing_package_is_fatal() {
    let requested = vec![rec(b"ghost", b"1.0.0")];
    let entries = vec![LockPackage { name: b"foo".to_vec(), version: Some(b"1.0.0".to_vec()) }];
    match resolved_versions(&requested, &entries) {
        Err(ResolveError::MissingPackage(n)) => assert_eq!(n, b"ghost".to_vec()),
        other => panic!("expected a missing-package error, got {:?}", other.map(|_| ())),
    }
}

#[test]
fn missing_version_field_is_fatal() {
    let requested = vec![rec(b"bare", b"1.0.0")];
    let entries = vec![LockPackage { name: b"bare".to_vec(), version: None }];
    match resolved_versions(&requested, &entries) {
        Err(ResolveError::MissingVersion(n)) => assert_eq!(n, b"bare".to_vec()),
        other => panic!("expected a missing-version error, got {:?}", other.map(|_| ())),
    }
}

#[test]
fn duplicate_entries_take_the_last_and_warn() {
    let requested = vec![rec(b"dup", b"1.0.0")];
    let entries = vec![
        LockPackage { name: b"dup".to_vec(), version: Some(b"1.0.0".to_vec()) },
        LockPackage { name: b"dup".to_vec(), version: Some(b"2.0.0".to_vec()) },
    ];
    let out = resolved_versions(&requested, &entries).expect("request resolves");
    assert_eq!(out.versions[0].version, b"2.0.0".to_vec());
    assert_eq!(out.ambiguous, vec![b"dup".to_vec()]);
}

#[test]
fn no_requests_resolve_to_nothing() {
    let entries = vec![LockPackage { name: b"foo".to_vec(), version: Some(b"1.0.0".to_vec()) }];
    let out = resolved_versions(&Vec::new(), &entries).expect("nothing to resolve");
    assert!(out.versions.is_empty());
    assert!(out.ambiguous.is_empty());
}
