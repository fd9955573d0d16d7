//! Tests of the candidate resolver: superseded-version ranking, out-of-tree
//! selection, kernel-variant selection and deduplication.

use repo_retire_packages::artifact::CatalogEntry;
use repo_retire_packages::artifact::PackageMeta;
use repo_retire_packages::artifact::RetireReason;
use repo_retire_packages::kernel::available_significant_versions;
use repo_retire_packages::kernel::determine_retired_kernel_packages;
use repo_retire_packages::kernel::discover_kernel_variants;
use repo_retire_packages::resolver::dedup_candidates;
use repo_retire_packages::resolver::default_exempt_prefixes;
use repo_retire_packages::resolver::determine_retired_packages;
use repo_retire_packages::resolver::out_of_tree_candidates;
use repo_retire_packages::resolver::resolve_candidates;
use repo_retire_packages::resolver::superseded_candidates;

fn meta(package: &str, version: &str, repo: &str, filename: &str, size: i64) -> PackageMeta {
    PackageMeta {
        package: package.to_string(),
        sha256: format!("digest-of-{filename}"),
        size,
        filename: filename.to_string(),
        version: version.to_string(),
        architecture: "amd64".to_string(),
        repo: repo.to_string(),
    }
}

fn entry(package: &str, version: &str, repo: &str, vercomp: i64) -> CatalogEntry {
    let filename = format!("pool/{package}_{version}.deb");
    CatalogEntry {
        meta: meta(package, version, repo, &filename, 100),
        vercomp,
    }
}

#[test]
fn test_superseded_selects_all_but_newest() {
    let catalog = vec![
        entry("foo", "1.0", "amd64/stable", 1),
        entry("foo", "3.0", "amd64/stable", 3),
        entry("foo", "2.0", "amd64/stable", 2),
        entry("bar", "5.0", "amd64/stable", 5),
    ];
    let out = superseded_candidates(&catalog);
    let names: Vec<(String, String)> = out
        .iter()
        .map(|c| (c.meta.package.clone(), c.meta.version.clone()))
        .collect();
    assert_eq!(
        names,
        vec![
            ("foo".to_string(), "1.0".to_string()),
            ("foo".to_string(), "2.0".to_string()),
        ]
    );
    for c in &out {
        assert_eq!(c.reason, RetireReason::SupersededVersion);
    }
}

#[test]
fn test_superseded_tie_keeps_exactly_one() {
    // Two rows share the top version key: exactly one survives, the earlier
    // one, so N - 1 rows of the group are selected.
    let catalog = vec![
        entry("foo", "2.0-a", "amd64/stable", 2),
        entry("foo", "2.0-b", "amd64/stable", 2),
        entry("foo", "1.0", "amd64/stable", 1),
    ];
    let out = superseded_candidates(&catalog);
    assert_eq!(out.len(), 2);
    assert_eq!(out[0].meta.version, "2.0-b");
    assert_eq!(out[1].meta.version, "1.0");
}

#[test]
fn test_superseded_single_version_not_selected() {
    let catalog = vec![entry("solo", "1.0", "amd64/stable", 7)];
    let out = superseded_candidates(&catalog);
    assert!(out.is_empty());
}

#[test]
fn test_superseded_partitions_by_repo() {
    // The same package in two repositories forms two partitions; each keeps
    // its own newest row.
    let catalog = vec![
        entry("foo", "2.0", "amd64/stable", 2),
        entry("foo", "1.0", "arm64/stable", 1),
    ];
    let out = superseded_candidates(&catalog);
    assert!(out.is_empty());
}

#[test]
fn test_out_of_tree_never_selects_protected() {
    let catalog = vec![
        entry("in-tree-pkg", "1.0", "amd64/stable", 1),
        entry("gone-pkg", "1.0", "amd64/stable", 1),
        entry("gone-pkg-dbg", "1.0", "amd64/stable", 1),
        entry("linux-kernel-6.1.1", "6.1.1", "amd64/stable", 1),
        entry("linux+kernel+rc", "6.1.1", "amd64/stable", 1),
        entry("u-boot-tools", "1.0", "amd64/stable", 1),
        entry("gone-testing-pkg", "1.0", "amd64/testing", 1),
    ];
    let registry = vec!["in-tree-pkg".to_string()];
    let prefixes = default_exempt_prefixes();
    let out = out_of_tree_candidates(&catalog, &registry, &prefixes);
    assert_eq!(out.len(), 1);
    assert_eq!(out[0].meta.package, "gone-pkg");
    assert_eq!(out[0].reason, RetireReason::OutOfTree);
}

#[test]
fn test_determine_retired_packages_oot_flag() {
    let catalog = vec![
        entry("gone-pkg", "1.0", "amd64/stable", 1),
        entry("foo", "1.0", "amd64/stable", 1),
        entry("foo", "2.0", "amd64/stable", 2),
    ];
    let registry = vec!["foo".to_string()];
    let without = determine_retired_packages(&catalog, &registry, false);
    assert_eq!(without.len(), 1);
    assert_eq!(without[0].meta.package, "foo");
    assert_eq!(without[0].reason, RetireReason::SupersededVersion);
    let with = determine_retired_packages(&catalog, &registry, true);
    assert_eq!(with.len(), 2);
    assert_eq!(with[0].meta.package, "gone-pkg");
    assert_eq!(with[0].reason, RetireReason::OutOfTree);
    assert_eq!(with[1].meta.package, "foo");
    assert_eq!(with[1].meta.version, "1.0");
}

#[test]
fn test_kernel_variant_selection() {
    // A metapackage for variant "foo" is published at significant version
    // 6.1.2; the 6.1.1 artifact is outdated, the 6.1.2 artifact is current.
    let catalog = vec![
        entry("linux+kernel+foo", "6.1.2-1", "amd64/stable", 10),
        entry("linux-kernel-foo-6.1.1", "6.1.1", "amd64/stable", 1),
        entry("linux-kernel-foo-6.1.2", "6.1.2", "amd64/stable", 2),
    ];
    let out = determine_retired_kernel_packages(&catalog);
    assert_eq!(out.len(), 1);
    assert_eq!(out[0].meta.package, "linux-kernel-foo-6.1.1");
    assert_eq!(out[0].reason, RetireReason::OutdatedKernelVariant);
}

#[test]
fn test_kernel_base_family_selection() {
    let catalog = vec![
        entry("linux+kernel", "5.10.3", "amd64/stable", 10),
        entry("linux-kernel-5.10.2", "5.10.2-1", "amd64/stable", 1),
        entry("linux-kernel-5.10.3", "5.10.3-1", "amd64/stable", 2),
        // Not family-prefixed-numeric: never a base-family candidate.
        entry("linux-kernel-headers", "1.0", "amd64/stable", 1),
    ];
    let out = determine_retired_kernel_packages(&catalog);
    assert_eq!(out.len(), 1);
    assert_eq!(out[0].meta.package, "linux-kernel-5.10.2");
}

#[test]
fn test_kernel_variant_without_metapackage_all_selected() {
    // No metapackage for variant "rt" is published at all: every per-version
    // artifact of that variant is outdated.
    let catalog = vec![
        entry("linux+kernel+rt", "x", "amd64/stable", 10),
        entry("linux-kernel-rt-6.1.1", "6.1.1", "amd64/stable", 1),
    ];
    let out = determine_retired_kernel_packages(&catalog);
    assert_eq!(out.len(), 1);
    assert_eq!(out[0].meta.package, "linux-kernel-rt-6.1.1");
}

#[test]
fn test_discover_variants_distinct_in_order() {
    let catalog = vec![
        entry("linux+kernel", "6.1.2", "amd64/stable", 1),
        entry("linux+kernel+rc", "6.2.0", "amd64/stable", 1),
        entry("linux+kernel+lts", "5.15.0", "amd64/stable", 1),
        entry("linux+kernel+rc", "6.3.0", "amd64/stable", 1),
    ];
    let variants = discover_kernel_variants(&catalog);
    assert_eq!(variants, vec!["rc".to_string(), "lts".to_string()]);
}

#[test]
fn test_available_significant_versions() {
    let catalog = vec![
        entry("linux+kernel+rc", "6.2.0-1", "amd64/stable", 1),
        entry("linux+kernel+rc", "6.2.0-2", "amd64/stable", 2),
        entry("linux+kernel+rc", "6.3.1-1", "amd64/stable", 3),
        entry("linux+kernel+lts", "5.15.0", "amd64/stable", 1),
    ];
    let versions = available_significant_versions(&catalog, "rc");
    assert_eq!(versions, vec!["6.2.0".to_string(), "6.3.1".to_string()]);
}

#[test]
fn test_dedup_keeps_first_occurrence() {
    // The same physical file selected by two rules is retired once, under
    // the reason that listed it first.
    let catalog = vec![
        entry("gone-pkg", "1.0", "amd64/stable", 1),
        entry("gone-pkg", "2.0", "amd64/stable", 2),
    ];
    let registry: Vec<String> = Vec::new();
    let out = resolve_candidates(
        &catalog,
        &registry,
        &default_exempt_prefixes(),
        true,
        false,
    );
    // Both versions are out of tree; version 1.0 is also superseded, but its
    // file is already listed by the out-of-tree rule.
    assert_eq!(out.len(), 2);
    assert_eq!(out[0].meta.version, "1.0");
    assert_eq!(out[0].reason, RetireReason::OutOfTree);
    assert_eq!(out[1].meta.version, "2.0");
    assert_eq!(out[1].reason, RetireReason::OutOfTree);
}

#[test]
fn test_dedup_candidates_duplicate_rows() {
    let candidates = vec![
        repo_retire_packages::artifact::RetirementCandidate {
            meta: meta("a", "1", "r/stable", "pool/a.deb", 5),
            reason: RetireReason::OutOfTree,
        },
        repo_retire_packages::artifact::RetirementCandidate {
            meta: meta("a", "1", "r/stable", "pool/a.deb", 5),
            reason: RetireReason::SupersededVersion,
        },
        repo_retire_packages::artifact::RetirementCandidate {
            meta: meta("b", "1", "r/stable", "pool/b.deb", 5),
            reason: RetireReason::SupersededVersion,
        },
    ];
    let out = dedup_candidates(&candidates);
    assert_eq!(out.len(), 2);
    assert_eq!(out[0].meta.filename, "pool/a.deb");
    assert_eq!(out[0].reason, RetireReason::OutOfTree);
    assert_eq!(out[1].meta.filename, "pool/b.deb");
}
