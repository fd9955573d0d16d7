//! Tests of the orchestration decisions: run planning, configuration
//! validation, totals and size formatting.

use repo_retire_packages::artifact::PackageMeta;
use repo_retire_packages::artifact::RetireReason;
use repo_retire_packages::artifact::RetirementCandidate;
use repo_retire_packages::orchestrate::RetireError;
use repo_retire_packages::orchestrate::RunConfig;
use repo_retire_packages::orchestrate::RunRequest;
use repo_retire_packages::orchestrate::format_size_checked;
use repo_retire_packages::orchestrate::plan_run;
use repo_retire_packages::orchestrate::summarize;

fn config(abbs_sync: bool) -> RunConfig {
    RunConfig {
        db_pgconn: "SECRET-REDACTED".to_string(),
        path: "/srv/pool".to_string(),
        abbs_sync,
    }
}

fn request(dry_run: bool, out_of_tree: bool) -> RunRequest {
    RunRequest {
        dry_run,
        out_of_tree,
        with_kernel: false,
        inhibit: vec!["pool-scan.service".to_string()],
    }
}

fn candidate(size: i64) -> RetirementCandidate {
    RetirementCandidate {
        meta: PackageMeta {
            package: "pkg".to_string(),
            sha256: "digest".to_string(),
            size,
            filename: format!("pool/pkg-{size}.deb"),
            version: "1.0".to_string(),
            architecture: "amd64".to_string(),
            repo: "amd64/stable".to_string(),
        },
        reason: RetireReason::SupersededVersion,
    }
}

#[test]
fn test_dry_run_plan_is_inert() {
    // A dry run touches nothing: no registry refresh, no service stopped or
    // started, no move executed.
    let plan = plan_run(&config(true), request(true, true)).unwrap();
    assert!(!plan.refresh_registry);
    assert!(plan.services_to_inhibit.is_empty());
    assert!(!plan.execute_moves);
}

#[test]
fn test_unsafe_configuration_is_fatal() {
    // Out-of-tree retirement with an unsynchronized registry is refused
    // before anything is touched.
    let err = plan_run(&config(false), request(false, true)).unwrap_err();
    assert_eq!(err, RetireError::UnsafeConfiguration);
    let err2 = plan_run(&config(false), request(true, true)).unwrap_err();
    assert_eq!(err2, RetireError::UnsafeConfiguration);
}

#[test]
fn test_executing_plan() {
    let plan = plan_run(&config(true), request(false, true)).unwrap();
    assert!(plan.refresh_registry);
    assert_eq!(plan.services_to_inhibit, vec!["pool-scan.service".to_string()]);
    assert!(plan.execute_moves);
    let plan2 = plan_run(&config(false), request(false, false)).unwrap();
    assert!(!plan2.refresh_registry);
    assert!(plan2.execute_moves);
}

#[test]
fn test_summarize_totals() {
    let cands = vec![candidate(10), candidate(20), candidate(30)];
    let report = summarize(&cands);
    assert_eq!(report.count, 3);
    assert_eq!(report.total_bytes, 60);
    let empty = summarize(&Vec::new());
    assert_eq!(empty.count, 0);
    assert_eq!(empty.total_bytes, 0);
}

#[test]
fn test_format_size() {
    assert_eq!(format_size_checked(0).unwrap(), "0 B");
    assert_eq!(format_size_checked(60).unwrap(), "60 B");
    assert_eq!(format_size_checked(1048576).unwrap(), "1.0 MiB");
    assert_eq!(format_size_checked(-1), None);
    assert_eq!(format_size_checked(i128::from(u64::MAX) + 1), None);
}
