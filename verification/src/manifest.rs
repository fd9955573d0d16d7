//! The write-ahead retirement manifest.
//!
//! Before any file is moved, the identifying metadata of every candidate is
//! persisted as the audit record of the run. The store keeps at most one row
//! per physical file (digest and pool path), so re-running after an
//! interruption adds no duplicate rows. The durable store's transaction is
//! all-or-nothing; this model therefore describes committed states only, and
//! one recording call stands for one committed transaction.

use vstd::prelude::*;
use crate::artifact::PackageMeta;
use crate::strutil::str_eq;

verus! {

/// A row for the same digest/path pair is present.
pub open spec fn spec_has_row(rows: Seq<PackageMeta>, m: PackageMeta) -> bool {
    exists|i: int| 0 <= i < rows.len() && (#[trigger] rows[i]).same_file(m)
}

/// No two rows name the same physical file.
pub open spec fn unique_rows(rows: Seq<PackageMeta>) -> bool {
    forall|i: int, j: int|
        #![trigger rows[i], rows[j]]
        0 <= i < j < rows.len() ==> !rows[i].same_file(rows[j])
}

/// The store contents after recording the first `k` candidates: each is
/// appended unless a row for its file is already present.
pub open spec fn record_prefix(rows: Seq<PackageMeta>, ps: Seq<PackageMeta>, k: int) -> Seq<
    PackageMeta,
>
    decreases k when 0 <= k <= ps.len()
{
    if k <= 0 {
        rows
    } else {
        let prev = record_prefix(rows, ps, k - 1);
        if spec_has_row(prev, ps[k - 1]) {
            prev
        } else {
            prev.push(ps[k - 1])
        }
    }
}

/// The store contents after recording the whole candidate set.
pub open spec fn recorded(rows: Seq<PackageMeta>, ps: Seq<PackageMeta>) -> Seq<PackageMeta> {
    record_prefix(rows, ps, ps.len() as int)
}

/// The manifest store: the committed rows of the durable audit record.
pub struct ManifestStore {
    rows: Vec<PackageMeta>,
}

impl ManifestStore {
    /// The committed rows, in the order they were first recorded.
    pub closed spec fn rows_view(&self) -> Seq<PackageMeta> {
        self.rows@
    }

    /// The store's invariant: one row per physical file.
    pub open spec fn wf(&self) -> bool {
        unique_rows(self.rows_view())
    }

    /// An empty store.
    pub fn new() -> (s: ManifestStore)
        ensures
            s.rows_view() == Seq::<PackageMeta>::empty(),
            s.wf(),
    {
        ManifestStore { rows: Vec::new() }
    }

    /// Whether a row for the same digest/path pair is already present.
    pub fn contains_file(&self, m: &PackageMeta) -> (r: bool)
        ensures
            r == spec_has_row(self.rows_view(), *m),
    {
        let n = self.rows.len();
        let mut i: usize = 0;
        while i < n
            invariant
                n == self.rows@.len(),
                i <= n,
                forall|p: int| 0 <= p < i ==> !(#[trigger] self.rows@[p]).same_file(*m),
            decreases n - i,
        {
            if str_eq(self.rows[i].sha256.as_str(), m.sha256.as_str()) && str_eq(
                self.rows[i].filename.as_str(),
                m.filename.as_str(),
            ) {
                return true;
            }
            i = i + 1;
        }
        false
    }

    /// Records the candidate set's identifying metadata, one committed
    /// transaction: every candidate's file afterwards has a row, and a file
    /// already recorded is not recorded again.
    pub fn record_packages(&mut self, pkgs: &Vec<PackageMeta>)
        requires
            old(self).wf(),
        ensures
            final(self).wf(),
            final(self).rows_view() == recorded(old(self).rows_view(), pkgs@),
    {
        let n = pkgs.len();
        let mut k: usize = 0;
        while k < n
            invariant
                n == pkgs@.len(),
                k <= n,
                self.wf(),
                self.rows_view() == record_prefix(old(self).rows_view(), pkgs@, k as int),
            decreases n - k,
        {
            let present = self.contains_file(&pkgs[k]);
            if !present {
                let ghost before = self.rows@;
                self.rows.push(pkgs[k].duplicate());
                proof {
                    assert(self.rows@ =~= before.push(pkgs@[k as int]));
                    assert forall|i: int, j: int|
                        #![trigger self.rows@[i], self.rows@[j]]
                        0 <= i < j < self.rows@.len() implies !self.rows@[i].same_file(
                        self.rows@[j],
                    ) by {
                        if j < before.len() {
                            assert(self.rows@[i] == before[i]);
                            assert(self.rows@[j] == before[j]);
                        } else {
                            assert(self.rows@[j] == pkgs@[k as int]);
                            assert(self.rows@[i] == before[i]);
                            if self.rows@[i].same_file(self.rows@[j]) {
                                assert(spec_has_row(before, pkgs@[k as int]));
                            }
                        }
                    }
                }
            }
            k = k + 1;
        }
    }

    /// The committed rows, for reporting and for writing out.
    pub fn snapshot(&self) -> (r: &Vec<PackageMeta>)
        ensures
            r@ == self.rows_view(),
    {
        &self.rows
    }
}

proof fn lemma_record_prefix_complete(rows: Seq<PackageMeta>, ps: Seq<PackageMeta>, k: int)
    requires
        0 <= k <= ps.len(),
    ensures
        forall|j: int|
            0 <= j < k ==> spec_has_row(record_prefix(rows, ps, k), (#[trigger] ps[j])),
    decreases k,
{
    if k > 0 {
        lemma_record_prefix_complete(rows, ps, k - 1);
        let prev = record_prefix(rows, ps, k - 1);
        let cur = record_prefix(rows, ps, k);
        assert forall|j: int| 0 <= j < k implies spec_has_row(cur, (#[trigger] ps[j])) by {
            if j < k - 1 {
                let i = choose|i: int| 0 <= i < prev.len() && (#[trigger] prev[i]).same_file(ps[j]);
                assert(cur[i] == prev[i]);
                assert(cur[i].same_file(ps[j]));
            } else {
                if spec_has_row(prev, ps[k - 1]) {
                    let i = choose|i: int|
                        0 <= i < prev.len() && (#[trigger] prev[i]).same_file(ps[k - 1]);
                    assert(cur[i].same_file(ps[j]));
                } else {
                    assert(cur[cur.len() - 1].same_file(ps[j]));
                }
            }
        }
    }
}

proof fn lemma_record_prefix_noop(rows: Seq<PackageMeta>, ps: Seq<PackageMeta>, k: int)
    requires
        0 <= k <= ps.len(),
        forall|j: int| 0 <= j < k ==> spec_has_row(rows, (#[trigger] ps[j])),
    ensures
        record_prefix(rows, ps, k) == rows,
    decreases k,
{
    if k > 0 {
        lemma_record_prefix_noop(rows, ps, k - 1);
    }
}

/// The write-ahead record survives a re-run unchanged: recording the same
/// candidate set into a store that already holds it changes nothing, and a
/// store whose rows were unique stays free of duplicate rows for the same
/// digest/path pair.
pub proof fn lemma_manifest_rerun_no_duplicates(rows: Seq<PackageMeta>, ps: Seq<PackageMeta>)
    requires
        unique_rows(rows),
    ensures
        unique_rows(recorded(rows, ps)),
        recorded(recorded(rows, ps), ps) == recorded(rows, ps),
        forall|j: int| 0 <= j < ps.len() ==> spec_has_row(recorded(rows, ps), (#[trigger] ps[j])),
{
    lemma_record_unique(rows, ps, ps.len() as int);
    lemma_record_prefix_complete(rows, ps, ps.len() as int);
    lemma_record_prefix_noop(recorded(rows, ps), ps, ps.len() as int);
}

proof fn lemma_record_unique(rows: Seq<PackageMeta>, ps: Seq<PackageMeta>, k: int)
    requires
        0 <= k <= ps.len(),
        unique_rows(rows),
    ensures
        unique_rows(record_prefix(rows, ps, k)),
    decreases k,
{
    if k > 0 {
        lemma_record_unique(rows, ps, k - 1);
        let prev = record_prefix(rows, ps, k - 1);
        let cur = record_prefix(rows, ps, k);
        if !spec_has_row(prev, ps[k - 1]) {
            assert forall|i: int, j: int|
                #![trigger cur[i], cur[j]]
                0 <= i < j < cur.len() implies !cur[i].same_file(cur[j]) by {
                if j < prev.len() {
                    assert(cur[i] == prev[i]);
                    assert(cur[j] == prev[j]);
                } else {
                    assert(cur[j] == ps[k - 1]);
                    assert(cur[i] == prev[i]);
                    if cur[i].same_file(cur[j]) {
                        assert(spec_has_row(prev, ps[k - 1]));
                    }
                }
            }
        }
    }
}

} // verus!
