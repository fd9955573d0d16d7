//! Decisions of the service inhibition protocol.
//!
//! Before the pool is touched, the services that might read it are quiesced:
//! each protected service's trigger units are examined, exactly the engaged
//! ones are stopped, the protected services are polled until idle, and after
//! retirement exactly the stopped triggers are started again. The bus calls
//! themselves happen outside this library; these functions make the
//! decisions — which triggers to stop, when a service counts as quiescent,
//! and what to restart.

use vstd::prelude::*;
use crate::strutil::str_eq;

verus! {

/// A resolved service unit as the service manager reports it: unit
/// identifier, current sub-state, and the names of the units that trigger
/// it. Held exclusively by the inhibition protocol for the run's lifetime.
#[derive(Debug)]
pub struct ServiceState {
    pub id: String,
    pub state: String,
    pub triggered_by: Vec<String>,
}

/// A sub-state in which a trigger unit is actively engaged, able to
/// (re)activate the service it triggers: running or waiting.
pub open spec fn is_engaged(state: Seq<char>) -> bool {
    state == "running"@ || state == "waiting"@
}

/// An idle sub-state: dead or waiting. A protected service in such a state
/// is not mutating the pool.
pub open spec fn is_idle(state: Seq<char>) -> bool {
    state == "dead"@ || state == "waiting"@
}

/// The engaged triggers among the examined ones, in examination order.
pub open spec fn engaged_selection(ts: Seq<ServiceState>) -> Seq<ServiceState>
    decreases ts.len(),
{
    if ts.len() == 0 {
        Seq::empty()
    } else if is_engaged(ts[0].state@) {
        seq![ts[0]] + engaged_selection(ts.drop_first())
    } else {
        engaged_selection(ts.drop_first())
    }
}

/// Whether a trigger unit is actively engaged and so must be stopped.
pub fn trigger_is_active(s: &ServiceState) -> (r: bool)
    ensures
        r == is_engaged(s.state@),
{
    str_eq(s.state.as_str(), "running") || str_eq(s.state.as_str(), "waiting")
}

/// Whether a polled sub-state counts as quiescent; polling a protected
/// service ends exactly when this holds.
pub fn service_is_quiescent(state: &str) -> (r: bool)
    ensures
        r == is_idle(state@),
{
    str_eq(state, "dead") || str_eq(state, "waiting")
}

/// The triggers that this run actually stopped — the only services the run
/// alters, and the only ones restoration will start again.
pub struct InhibitionSet {
    pub stopped: Vec<ServiceState>,
}

impl InhibitionSet {
    /// Selects from the examined triggers the ones to stop: exactly the
    /// engaged ones, in examination order. Inactive triggers need no action
    /// and are left alone.
    pub fn plan(triggers: Vec<ServiceState>) -> (s: InhibitionSet)
        ensures
            s.stopped@ == engaged_selection(triggers@),
    {
        let mut remaining = triggers;
        let mut stopped: Vec<ServiceState> = Vec::new();
        proof {
            assert(stopped@ + engaged_selection(remaining@) =~= engaged_selection(remaining@));
        }
        let ghost orig = remaining@;
        while remaining.len() > 0
            invariant
                engaged_selection(orig) == stopped@ + engaged_selection(remaining@),
            decreases remaining.len(),
        {
            let ghost before = remaining@;
            let t = remaining.remove(0);
            proof {
                assert(remaining@ =~= before.drop_first());
                assert(t == before[0]);
            }
            if trigger_is_active(&t) {
                proof {
                    assert(engaged_selection(before) == seq![t] + engaged_selection(remaining@));
                    assert((stopped@ + seq![t]) + engaged_selection(remaining@) =~= stopped@ + (
                    seq![t] + engaged_selection(remaining@)));
                    assert(stopped@.push(t) =~= stopped@ + seq![t]);
                }
                stopped.push(t);
            } else {
                proof {
                    assert(engaged_selection(before) == engaged_selection(remaining@));
                }
            }
        }
        proof {
            assert(engaged_selection(remaining@) =~= Seq::<ServiceState>::empty());
            assert(stopped@ + Seq::<ServiceState>::empty() =~= stopped@);
        }
        InhibitionSet { stopped }
    }

    /// The units restoration starts again: exactly the stopped ones, in the
    /// order they were stopped.
    pub fn to_restart(&self) -> (r: &Vec<ServiceState>)
        ensures
            r@ == self.stopped@,
    {
        &self.stopped
    }
}

/// Exactly the engaged triggers are stopped and later restarted: every
/// stopped trigger was engaged when examined, and every engaged trigger is
/// stopped. An inactive trigger is never stopped.
pub proof fn lemma_inhibition_stops_exactly_engaged(ts: Seq<ServiceState>)
    ensures
        forall|p: int|
            0 <= p < engaged_selection(ts).len() ==> is_engaged(
                #[trigger] engaged_selection(ts)[p].state@,
            ),
        forall|j: int|
            0 <= j < ts.len() && is_engaged((#[trigger] ts[j]).state@) ==> engaged_selection(
                ts,
            ).contains(ts[j]),
    decreases ts.len(),
{
    if ts.len() > 0 {
        lemma_inhibition_stops_exactly_engaged(ts.drop_first());
        let rest = ts.drop_first();
        let sel = engaged_selection(ts);
        if is_engaged(ts[0].state@) {
            assert(sel == seq![ts[0]] + engaged_selection(rest));
            assert forall|j: int|
                0 <= j < ts.len() && is_engaged((#[trigger] ts[j]).state@) implies sel.contains(
                ts[j],
            ) by {
                if j == 0 {
                    assert(sel[0] == ts[0]);
                } else {
                    assert(rest[j - 1] == ts[j]);
                    let p = choose|p: int|
                        0 <= p < engaged_selection(rest).len() && engaged_selection(rest)[p]
                            == ts[j];
                    assert(sel[1 + p] == ts[j]);
                }
            }
        } else {
            assert(sel == engaged_selection(rest));
            assert forall|j: int|
                0 <= j < ts.len() && is_engaged((#[trigger] ts[j]).state@) implies sel.contains(
                ts[j],
            ) by {
                assert(j != 0);
                assert(rest[j - 1] == ts[j]);
            }
        }
    }
}

} // verus!
