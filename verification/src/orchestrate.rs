//! Orchestration decisions: what a requested retirement run may do.
//!
//! The orchestrator validates the configuration before anything is touched,
//! decides which phases an accepted run performs — registry refresh, service
//! inhibition, candidate resolution, then either a report or the archival
//! pipeline — and computes the totals reported to the operator before any
//! action. A dry run is inert: it refreshes nothing, inhibits no service and
//! moves no file.

use vstd::prelude::*;
use crate::artifact::RetirementCandidate;

verus! {

/// The operator's configuration, as the configuration file provides it: the
/// catalog connection string, the pool's filesystem root, and whether the
/// in-tree registry is kept synchronized.
#[derive(Debug)]
pub struct RunConfig {
    pub db_pgconn: String,
    pub path: String,
    pub abbs_sync: bool,
}

/// One requested retirement run, as the command line states it.
#[derive(Debug)]
pub struct RunRequest {
    pub dry_run: bool,
    pub out_of_tree: bool,
    pub with_kernel: bool,
    pub inhibit: Vec<String>,
}

/// Why a run is refused before any action is taken.
#[derive(Debug, Clone, Copy, PartialEq, Eq, Structural)]
pub enum RetireError {
    /// Out-of-tree retirement was requested while the configuration says
    /// the in-tree registry is not kept synchronized: selecting against a
    /// stale registry could retire packages wrongly, so the run refuses to
    /// continue.
    UnsafeConfiguration,
}

/// What an accepted run performs, in order: optionally refresh the in-tree
/// registry, inhibit the named services, resolve candidates, then either
/// report only or execute the archival pipeline and restore the services.
#[derive(Debug)]
pub struct RunPlan {
    pub refresh_registry: bool,
    pub services_to_inhibit: Vec<String>,
    pub execute_moves: bool,
}

/// Decides what a run may do. An unsafe configuration is fatal with no
/// action taken. A dry run never deletes, copies or creates a file and
/// never stops or starts a service: its plan refreshes nothing, inhibits
/// nothing and executes no move — it only reports. An executing run
/// refreshes the registry exactly when out-of-tree retirement was
/// requested, and inhibits exactly the requested services.
pub fn plan_run(config: &RunConfig, request: RunRequest) -> (r: Result<RunPlan, RetireError>)
    ensures
        match r {
            Err(e) => {
                &&& e == RetireError::UnsafeConfiguration
                &&& request.out_of_tree
                &&& !config.abbs_sync
            },
            Ok(plan) => {
                &&& !(request.out_of_tree && !config.abbs_sync)
                &&& plan.execute_moves == !request.dry_run
                &&& plan.refresh_registry == (request.out_of_tree && !request.dry_run)
                &&& plan.services_to_inhibit@ == (if request.dry_run {
                    Seq::<String>::empty()
                } else {
                    request.inhibit@
                })
            },
        },
{
    if request.out_of_tree && !config.abbs_sync {
        return Err(RetireError::UnsafeConfiguration);
    }
    if request.dry_run {
        Ok(
            RunPlan {
                refresh_registry: false,
                services_to_inhibit: Vec::new(),
                execute_moves: false,
            },
        )
    } else {
        Ok(
            RunPlan {
                refresh_registry: request.out_of_tree,
                services_to_inhibit: request.inhibit,
                execute_moves: true,
            },
        )
    }
}

/// The total byte size of the candidates from position `k` on.
pub open spec fn total_from(cs: Seq<RetirementCandidate>, k: int) -> int
    decreases cs.len() - k when 0 <= k <= cs.len()
{
    if k >= cs.len() {
        0
    } else {
        cs[k].meta.size + total_from(cs, k + 1)
    }
}

/// The total byte size of the candidate set, as the simple sum of the
/// recorded sizes.
pub open spec fn spec_total_size(cs: Seq<RetirementCandidate>) -> int {
    total_from(cs, 0)
}

proof fn lemma_total_from_bounds(cs: Seq<RetirementCandidate>, k: int)
    requires
        0 <= k <= cs.len(),
    ensures
        (cs.len() - k) * (i64::MIN as int) <= total_from(cs, k) <= (cs.len() - k) * (
        i64::MAX as int),
    decreases cs.len() - k,
{
    if k < cs.len() {
        lemma_total_from_bounds(cs, k + 1);
        let m = cs.len() - k;
        assert((m - 1) * (i64::MIN as int) + (i64::MIN as int) == m * (i64::MIN as int))
            by (nonlinear_arith);
        assert((m - 1) * (i64::MAX as int) + (i64::MAX as int) == m * (i64::MAX as int))
            by (nonlinear_arith);
    }
}

/// What the operator is told before any action: how many artifacts are
/// selected and how many bytes they hold together.
#[derive(Debug)]
pub struct RetirementReport {
    pub count: usize,
    pub total_bytes: i128,
}

/// Computes the totals reported before a dry run's listing and before
/// pipeline execution: the candidate count and the exact byte sum.
pub fn summarize(cs: &Vec<RetirementCandidate>) -> (r: RetirementReport)
    ensures
        r.count == cs@.len(),
        r.total_bytes == spec_total_size(cs@),
{
    let n = cs.len();
    let mut acc: i128 = 0;
    let mut k: usize = n;
    while k > 0
        invariant
            n == cs@.len(),
            k <= n,
            acc == total_from(cs@, k as int),
        decreases k,
    {
        k = k - 1;
        proof {
            lemma_total_from_bounds(cs@, k as int);
            lemma_total_from_bounds(cs@, k + 1);
            let m = cs@.len() - k;
            assert(m <= 0xffff_ffff_ffff_ffffu64 as int);
            assert(m * (i64::MIN as int) >= 0xffff_ffff_ffff_ffffu64 as int * (i64::MIN as int))
                by (nonlinear_arith)
                requires m <= 0xffff_ffff_ffff_ffffu64 as int && m >= 0
            ;
            assert(m * (i64::MAX as int) <= 0xffff_ffff_ffff_ffffu64 as int * (i64::MAX as int))
                by (nonlinear_arith)
                requires m <= 0xffff_ffff_ffff_ffffu64 as int && m >= 0
            ;
        }
        acc = (cs[k].meta.size as i128) + acc;
    }
    RetirementReport { count: n, total_bytes: acc }
}

/// The text the size formatter renders for a byte count in binary units.
pub uninterp spec fn human_size_of(bytes: u64) -> Seq<char>;

/// Relies on bytesize::ByteSize's IEC display: the rendered text is a pure
/// function of the byte count alone.
#[verifier::external_body]
fn humanize_iec(bytes: u64) -> (r: String)
    ensures
        r@ == human_size_of(bytes),
{
    bytesize::ByteSize::b(bytes).display().iec().to_string()
}

/// Renders a total byte size for the operator in binary units. `None`
/// exactly when the total does not fit an unsigned 64-bit byte count — a
/// negative or oversized sum cannot describe a real set of files.
pub fn format_size_checked(total: i128) -> (r: Option<String>)
    ensures
        match r {
            Some(s) => 0 <= total <= u64::MAX && s@ == human_size_of(total as u64),
            None => !(0 <= total <= u64::MAX),
        },
{
    if 0 <= total && total <= u64::MAX as i128 {
        Some(humanize_iec(total as u64))
    } else {
        None
    }
}

} // verus!
