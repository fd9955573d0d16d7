//! Data model of the package pool: stored artifacts, catalog rows, and
//! retirement candidates.

use vstd::prelude::*;

verus! {

/// One stored package file in the distribution pool.
///
/// The digest together with the pool path (`filename`) identifies a physical
/// file; several records may share a package name and differ by version or
/// repository. Records are produced by the pool indexer and are read-only to
/// this library.
#[derive(Debug, Clone)]
pub struct PackageMeta {
    pub package: String,
    pub sha256: String,
    pub size: i64,
    pub filename: String,
    pub version: String,
    pub architecture: String,
    pub repo: String,
}

/// One row of the package-pool catalog: an artifact together with the
/// catalog's version-comparison key. Within one (package, repository)
/// partition a higher key means a newer version; strictly equal keys mean a
/// true version tie.
#[derive(Debug, Clone)]
pub struct CatalogEntry {
    pub meta: PackageMeta,
    pub vercomp: i64,
}

/// Why an artifact was selected for retirement.
#[derive(Debug, Clone, Copy, PartialEq, Eq, Structural)]
pub enum RetireReason {
    SupersededVersion,
    OutOfTree,
    OutdatedKernelVariant,
}

/// A selected artifact plus the reason for its selection. Produced by the
/// candidate resolver, consumed once by the archival pipeline, never mutated.
#[derive(Debug, Clone)]
pub struct RetirementCandidate {
    pub meta: PackageMeta,
    pub reason: RetireReason,
}

impl RetirementCandidate {
    /// A field-for-field copy, equal to the original as a value.
    pub fn duplicate(&self) -> (r: RetirementCandidate)
        ensures
            r == *self,
    {
        RetirementCandidate { meta: self.meta.duplicate(), reason: self.reason }
    }
}

impl PackageMeta {
    /// Two records describe the same physical file exactly when digest and
    /// pool path agree.
    pub open spec fn same_file(self, other: PackageMeta) -> bool {
        self.sha256@ == other.sha256@ && self.filename@ == other.filename@
    }

    /// A field-for-field copy, equal to the original as a value.
    pub fn duplicate(&self) -> (r: PackageMeta)
        ensures
            r == *self,
    {
        PackageMeta {
            package: self.package.clone(),
            sha256: self.sha256.clone(),
            size: self.size,
            filename: self.filename.clone(),
            version: self.version.clone(),
            architecture: self.architecture.clone(),
            repo: self.repo.clone(),
        }
    }
}

} // verus!
