//! Tests of the listing parser and the installed-set collector.

use cargo_update_installed::{
    installed_crates, Crate, CrateKind, LineParse, UnsupportedOrigin,
};

#[test]
fn indented_line_yields_no_record() {
    match Crate::parse_list_output(b" anything at all, even v1.2.3: nonsense") {
        Ok(LineParse::NoRecord) => {}
        other => panic!("expected no record, got {:?}", other),
    }
    match Crate::parse_list_output(b" ") {
        Ok(LineParse::NoRecord) => {}
        other => panic!("expected no record, got {:?}", other),
    }
}

#[test]
fn any_leading_whitespace_yields_no_record() {
    for line in [
        b"\tfoo v1.2.3:".to_vec(),
        b"\t".to_vec(),
        b"\x0cfoo v1.2.3:".to_vec(),
        b"\rfoo v1.2.3:".to_vec(),
    ] {
        match Crate::parse_list_output(&line) {
            Ok(LineParse::NoRecord) => {}
            other => panic!("expected no record for {:?}, got {:?}", line, other),
        }
    }
}

#[test]
fn registry_line_yields_record() {
    match Crate::parse_list_output(b"foo v1.2.3:") {
        Ok(LineParse::Record(c)) => {
            assert_eq!(c.name, b"foo".to_vec());
            assert_eq!(c.version, b"1.2.3".to_vec());
            assert_eq!(c.kind, CrateKind::CratesIo);
        }
        other => panic!("expected a record, got {:?}", other),
    }
}

#[test]
fn git_origin_yields_warning() {
    match Crate::parse_list_output(b"foo v1.2.3 (https://example.com):") {
        Ok(LineParse::Unsupported(w)) => {
            assert_eq!(w.name, b"foo".to_vec());
            assert_eq!(w.origin, UnsupportedOrigin::Git);
        }
        other => panic!("expected an unsupported-origin warning, got {:?}", other),
    }
}

#[test]
fn local_origin_yields_warning() {
    match Crate::parse_list_output(b"foo v1.2.3 (/some/local/path):") {
        Ok(LineParse::Unsupported(w)) => {
            assert_eq!(w.name, b"foo".to_vec());
            assert_eq!(w.origin, UnsupportedOrigin::Local);
        }
        other => panic!("expected an unsupported-origin warning, got {:?}", other),
    }
}

#[test]
fn missing_version_marker_fails() {
    assert!(Crate::parse_list_output(b"foo 1.2.3:").is_err());
}

#[test]
fn missing_colon_and_origin_fails() {
    assert!(Crate::parse_list_output(b"foo v1.2.3").is_err());
}

#[test]
fn empty_line_fails() {
    assert!(Crate::parse_list_output(b"").is_err());
}

#[test]
fn lone_name_fails() {
    assert!(Crate::parse_list_output(b"foo").is_err());
}

#[test]
fn malformed_origin_descriptor_fails() {
    assert!(Crate::parse_list_output(b"foo v1.2.3 https://example.com").is_err());
    assert!(Crate::parse_list_output(b"foo v1.2.3 (x").is_err());
}

#[test]
fn only_one_marker_and_one_colon_are_stripped() {
    match Crate::parse_list_output(b"foo vv2:") {
        Ok(LineParse::Record(c)) => {
            assert_eq!(c.version, b"v2".to_vec());
        }
        other => panic!("expected a record, got {:?}", other),
    }
    match Crate::parse_list_output(b"foo v1::") {
        Ok(LineParse::Record(c)) => {
            assert_eq!(c.version, b"1:".to_vec());
        }
        other => panic!("expected a record, got {:?}", other),
    }
}

#[test]
fn collector_folds_listing_sorted_by_name() {
    let listing = b"foo v1.0.0:\n foo-bin\nbar v2.0.0:\n bar\n";
    let out = installed_crates(listing).expect("listing parses");
    assert_eq!(out.crates.len(), 2);
    assert_eq!(out.crates[0].name, b"bar".to_vec());
    assert_eq!(out.crates[0].version, b"2.0.0".to_vec());
    assert_eq!(out.crates[1].name, b"foo".to_vec());
    assert_eq!(out.crates[1].version, b"1.0.0".to_vec());
    assert!(out.warnings.is_empty());
}

#[test]
fn collector_keeps_greater_version_in_either_order() {
    let out = installed_crates(b"dup v1.0.0:\ndup v2.0.0:\n").expect("listing parses");
    assert_eq!(out.crates.len(), 1);
    assert_eq!(out.crates[0].version, b"2.0.0".to_vec());

    let out = installed_crates(b"dup v2.0.0:\ndup v1.0.0:\n").expect("listing parses");
    assert_eq!(out.crates.len(), 1);
    assert_eq!(out.crates[0].version, b"2.0.0".to_vec());
}

#[test]
fn collector_reports_unsupported_origins() {
    let listing = b"git-one v0.1.0 (https://example.com/repo):\nlocal-one v0.2.0 (/home/x):\n";
    let out = installed_crates(listing).expect("listing parses");
    assert!(out.crates.is_empty());
    assert_eq!(out.warnings.len(), 2);
    assert_eq!(out.warnings[0].name, b"git-one".to_vec());
    assert_eq!(out.warnings[0].origin, UnsupportedOrigin::Git);
    assert_eq!(out.warnings[1].name, b"local-one".to_vec());
    assert_eq!(out.warnings[1].origin, UnsupportedOrigin::Local);
}

#[test]
fn collector_fails_on_first_malformed_line() {
    assert!(installed_crates(b"ok v1.0.0:\nbad line here\n").is_err());
}

#[test]
fn collector_of_empty_listing_is_empty() {
    let out = installed_crates(b"").expect("empty listing parses");
    assert!(out.crates.is_empty());
    assert!(out.warnings.is_empty());
}
