//! Retirement of obsolete package artifacts from a distribution pool.
//!
//! The library holds the verified core of the tool: the policy that decides
//! which stored artifacts are obsolete (superseded versions, out-of-tree
//! packages, outdated kernel variants), the decisions of the service
//! inhibition protocol, the write-ahead manifest discipline, and the
//! semantics of the archival pipeline that moves artifacts out of the pool.
//! The surrounding binary performs the actual database queries, bus calls
//! and file moves, and feeds their results to these functions.

pub mod artifact;
pub mod inhibit;
pub mod kernel;
pub mod manifest;
pub mod orchestrate;
pub mod pipeline;
pub mod resolver;
pub mod strutil;
pub mod version;

pub use artifact::CatalogEntry;
pub use artifact::PackageMeta;
pub use artifact::RetireReason;
pub use artifact::RetirementCandidate;
pub use inhibit::InhibitionSet;
pub use inhibit::ServiceState;
pub use manifest::ManifestStore;
pub use orchestrate::RetireError;
pub use orchestrate::RunConfig;
pub use orchestrate::RunPlan;
pub use orchestrate::RunRequest;
pub use pipeline::MoveOutcome;
pub use pipeline::PoolState;
