//! Tests of the archival pipeline semantics: idempotent resume, partial
//! failure, batching and the per-candidate decision.

use repo_retire_packages::artifact::PackageMeta;
use repo_retire_packages::artifact::RetireReason;
use repo_retire_packages::artifact::RetirementCandidate;
use repo_retire_packages::pipeline::MoveDirective;
use repo_retire_packages::pipeline::MoveOutcome;
use repo_retire_packages::pipeline::PoolState;
use repo_retire_packages::pipeline::RETIRE_BATCH_SIZE;
use repo_retire_packages::pipeline::batch_bounds;
use repo_retire_packages::pipeline::plan_move;

fn candidate(filename: &str) -> RetirementCandidate {
    RetirementCandidate {
        meta: PackageMeta {
            package: "pkg".to_string(),
            sha256: format!("digest-of-{filename}"),
            size: 10,
            filename: filename.to_string(),
            version: "1.0".to_string(),
            architecture: "amd64".to_string(),
            repo: "amd64/stable".to_string(),
        },
        reason: RetireReason::SupersededVersion,
    }
}

#[test]
fn test_archive_moves_all_candidates() {
    let mut fs = PoolState::new();
    fs.add_source_file("pool/a.deb".to_string());
    fs.add_source_file("pool/b.deb".to_string());
    let cands = vec![candidate("pool/a.deb"), candidate("pool/b.deb")];
    let failed = fs.archive_candidates(&cands);
    assert!(!failed);
    assert!(fs.dest_contains("pool/a.deb"));
    assert!(fs.dest_contains("pool/b.deb"));
    assert!(!fs.source_contains("pool/a.deb"));
    assert!(!fs.source_contains("pool/b.deb"));
}

#[test]
fn test_rerun_is_idempotent() {
    // Running the pipeline twice on the same candidates and destination
    // leaves the same final state as one run, and the second run reports no
    // failure: every candidate is skipped as already archived.
    let mut fs = PoolState::new();
    fs.add_source_file("pool/a.deb".to_string());
    fs.add_source_file("pool/b.deb".to_string());
    let cands = vec![candidate("pool/a.deb"), candidate("pool/b.deb")];
    let first = fs.archive_candidates(&cands);
    assert!(!first);
    let second = fs.archive_candidates(&cands);
    assert!(!second);
    assert!(fs.dest_contains("pool/a.deb"));
    assert!(fs.dest_contains("pool/b.deb"));
    assert!(!fs.source_contains("pool/a.deb"));
    assert!(!fs.source_contains("pool/b.deb"));
}

#[test]
fn test_partial_failure_still_attempts_all() {
    // One of five candidates has no readable source: the other four are
    // still moved, and the run as a whole reports failure.
    let mut fs = PoolState::new();
    for name in ["pool/a.deb", "pool/b.deb", "pool/d.deb", "pool/e.deb"] {
        fs.add_source_file(name.to_string());
    }
    let cands = vec![
        candidate("pool/a.deb"),
        candidate("pool/b.deb"),
        candidate("pool/c.deb"),
        candidate("pool/d.deb"),
        candidate("pool/e.deb"),
    ];
    let failed = fs.archive_candidates(&cands);
    assert!(failed);
    for name in ["pool/a.deb", "pool/b.deb", "pool/d.deb", "pool/e.deb"] {
        assert!(fs.dest_contains(name));
    }
    assert!(!fs.dest_contains("pool/c.deb"));
    assert!(!fs.source_contains("pool/c.deb"));
}

#[test]
fn test_failed_candidate_succeeds_on_retry_after_repair() {
    let mut fs = PoolState::new();
    let cands = vec![candidate("pool/a.deb")];
    assert!(fs.archive_candidates(&cands));
    fs.add_source_file("pool/a.deb".to_string());
    assert!(!fs.archive_candidates(&cands));
    assert!(fs.dest_contains("pool/a.deb"));
}

#[test]
fn test_apply_move_outcomes() {
    let mut fs = PoolState::new();
    fs.add_source_file("pool/a.deb".to_string());
    fs.add_dest_file("pool/b.deb".to_string());
    assert_eq!(fs.apply_move("pool/b.deb"), MoveOutcome::Skipped);
    assert_eq!(fs.apply_move("pool/a.deb"), MoveOutcome::Moved);
    assert_eq!(fs.apply_move("pool/missing.deb"), MoveOutcome::Failed);
}

#[test]
fn test_plan_move_decision() {
    assert_eq!(plan_move(true), MoveDirective::SkipExisting);
    assert_eq!(plan_move(false), MoveDirective::CopyThenDelete);
}

#[test]
fn test_batch_bounds_tile_in_order() {
    assert_eq!(batch_bounds(0), Vec::<(usize, usize)>::new());
    assert_eq!(batch_bounds(1), vec![(0, 1)]);
    assert_eq!(batch_bounds(RETIRE_BATCH_SIZE), vec![(0, 40)]);
    assert_eq!(batch_bounds(41), vec![(0, 40), (40, 41)]);
    assert_eq!(batch_bounds(100), vec![(0, 40), (40, 80), (80, 100)]);
}
