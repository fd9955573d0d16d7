//! Tests of the write-ahead manifest store.

use repo_retire_packages::artifact::PackageMeta;
use repo_retire_packages::manifest::ManifestStore;

fn meta(package: &str, filename: &str) -> PackageMeta {
    PackageMeta {
        package: package.to_string(),
        sha256: format!("digest-of-{filename}"),
        size: 42,
        filename: filename.to_string(),
        version: "1.0".to_string(),
        architecture: "amd64".to_string(),
        repo: "amd64/stable".to_string(),
    }
}

#[test]
fn test_record_keeps_every_candidate() {
    let mut store = ManifestStore::new();
    let pkgs = vec![
        meta("a", "pool/a.deb"),
        meta("b", "pool/b.deb"),
        meta("c", "pool/c.deb"),
    ];
    store.record_packages(&pkgs);
    let rows = store.snapshot();
    assert_eq!(rows.len(), 3);
    assert_eq!(rows[0].filename, "pool/a.deb");
    assert_eq!(rows[1].filename, "pool/b.deb");
    assert_eq!(rows[2].filename, "pool/c.deb");
    for p in &pkgs {
        assert!(store.contains_file(p));
    }
}

#[test]
fn test_rerun_adds_no_duplicate_rows() {
    // A run interrupted between manifest persistence and the first move
    // records the same candidates again on resume: the store must hold no
    // duplicate row for the same digest/path pair.
    let mut store = ManifestStore::new();
    let pkgs = vec![meta("a", "pool/a.deb"), meta("b", "pool/b.deb")];
    store.record_packages(&pkgs);
    store.record_packages(&pkgs);
    let rows = store.snapshot();
    assert_eq!(rows.len(), 2);
    assert_eq!(rows[0].filename, "pool/a.deb");
    assert_eq!(rows[1].filename, "pool/b.deb");
}

#[test]
fn test_record_superset_adds_only_new_rows() {
    let mut store = ManifestStore::new();
    store.record_packages(&vec![meta("a", "pool/a.deb")]);
    store.record_packages(&vec![meta("a", "pool/a.deb"), meta("b", "pool/b.deb")]);
    let rows = store.snapshot();
    assert_eq!(rows.len(), 2);
}

#[test]
fn test_duplicates_within_one_batch_recorded_once() {
    let mut store = ManifestStore::new();
    store.record_packages(&vec![meta("a", "pool/a.deb"), meta("a", "pool/a.deb")]);
    assert_eq!(store.snapshot().len(), 1);
}
