//! Tests of the service inhibition decisions.

use repo_retire_packages::inhibit::InhibitionSet;
use repo_retire_packages::inhibit::ServiceState;
use repo_retire_packages::inhibit::service_is_quiescent;
use repo_retire_packages::inhibit::trigger_is_active;

fn unit(id: &str, state: &str) -> ServiceState {
    ServiceState {
        id: id.to_string(),
        state: state.to_string(),
        triggered_by: Vec::new(),
    }
}

#[test]
fn test_exactly_active_triggers_stopped_and_restarted() {
    // Two active triggers and one inactive: exactly the active two are
    // stopped, and restoration starts exactly the stopped ones.
    let triggers = vec![
        unit("pool-scan.timer", "running"),
        unit("pool-sync.socket", "dead"),
        unit("pool-index.timer", "waiting"),
    ];
    let set = InhibitionSet::plan(triggers);
    let stopped: Vec<String> = set.stopped.iter().map(|s| s.id.clone()).collect();
    assert_eq!(
        stopped,
        vec!["pool-scan.timer".to_string(), "pool-index.timer".to_string()]
    );
    let restarted: Vec<String> = set.to_restart().iter().map(|s| s.id.clone()).collect();
    assert_eq!(restarted, stopped);
}

#[test]
fn test_no_triggers_nothing_stopped() {
    let set = InhibitionSet::plan(Vec::new());
    assert!(set.stopped.is_empty());
}

#[test]
fn test_trigger_activity() {
    assert!(trigger_is_active(&unit("a", "running")));
    assert!(trigger_is_active(&unit("a", "waiting")));
    assert!(!trigger_is_active(&unit("a", "dead")));
    assert!(!trigger_is_active(&unit("a", "failed")));
}

#[test]
fn test_quiescence() {
    assert!(service_is_quiescent("dead"));
    assert!(service_is_quiescent("waiting"));
    assert!(!service_is_quiescent("running"));
    assert!(!service_is_quiescent("start-pre"));
}
