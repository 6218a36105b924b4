//! Error taxonomy of the snapshot manager. Every failure is surfaced as a
//! typed value carrying enough context to print an actionable message.

use vstd::prelude::*;

verus! {

/// The package-manager operation a transaction was carrying out when an
/// external command failed.
#[derive(Clone, Copy, Debug, PartialEq, Eq, Structural)]
pub enum OpKind {
    Install,
    Uninstall,
    Upgrade,
    RefreshIndex,
    RepairDatabase,
    RunUninstallHooks,
}

/// Failure taxonomy shared by the lineage tree, the manifest, and the
/// transactional engine.
#[derive(Debug, PartialEq, Eq)]
pub enum AshError {
    /// A referenced snapshot is absent.
    NotFound,
    /// A concurrent transaction already holds an overlay for the snapshot.
    InUse,
    /// Attempted structural mutation of the base snapshot or synthetic root.
    Protected,
    /// An underlying package-manager or service command returned non-zero.
    OperationFailed { op: OpKind, pkg: Option<String> },
    /// The lock flag forbids removing a system-owned package.
    RemovalNotAllowed,
    /// A persisted manifest or tree file failed to parse.
    Corrupt,
    /// The id given to a tree insertion is already present.
    DuplicateId,
    /// The parent named by a tree insertion is absent.
    UnknownParent,
    /// The id given to a tree removal is absent.
    UnknownId,
    /// The node named by a tree removal still has children.
    HasChildren,
    /// The id holds a character the persisted format reserves, or is empty.
    InvalidId,
}

} // verus!
