//! The transactional package engine: the decision logic of
//! prepare → execute → commit/discard cycles against the snapshot store.
//! The engine never runs external commands itself; it decides which
//! commands to run, records every state change, and the caller reports
//! exit status back to the step functions.

use vstd::prelude::*;

use crate::commands;
use crate::errs::{AshError, OpKind};
use crate::manifest;
use crate::manifest::{ManifestView, ProfileManifest, SetName};
use crate::order;
use crate::status::{StatusLog, StatusView};

verus! {

/// Mathematical image of one snapshot known to the engine: its committed
/// manifest, the working copy while a transaction is in flight, and its
/// mutability flag.
#[verifier::ext_equal]
pub struct SnapView {
    pub id: Seq<char>,
    pub manifest: ManifestView,
    pub overlay: Option<ManifestView>,
    pub mutable: bool,
}

/// One snapshot known to the engine.
pub struct SnapshotState {
    id: String,
    manifest: ProfileManifest,
    overlay: Option<ProfileManifest>,
    mutable: bool,
}

impl View for SnapshotState {
    type V = SnapView;

    closed spec fn view(&self) -> SnapView {
        SnapView {
            id: self.id@,
            manifest: self.manifest@,
            overlay: match self.overlay {
                Some(m) => Some(m@),
                None => None,
            },
            mutable: self.mutable,
        }
    }
}

/// Mathematical image of the whole engine state.
#[verifier::ext_equal]
pub struct EngineView {
    pub snapshots: Seq<SnapView>,
    pub locked: bool,
    pub current: Seq<char>,
    pub status: StatusView,
}

/// The engine: every snapshot's state, the system-package lock, the id of
/// the running snapshot, and the auto-upgrade status log.
pub struct Engine {
    snapshots: Vec<SnapshotState>,
    locked: bool,
    current: String,
    status: StatusLog,
}

impl View for Engine {
    type V = EngineView;

    closed spec fn view(&self) -> EngineView {
        EngineView {
            snapshots: self.snapshots@.map_values(|s: SnapshotState| s@),
            locked: self.locked,
            current: self.current@,
            status: self.status@,
        }
    }
}

/// A snapshot with this id is known to the engine.
pub open spec fn has_snap(v: EngineView, id: Seq<char>) -> bool {
    exists|i: int| 0 <= i < v.snapshots.len() && v.snapshots[i].id == id
}

/// Position of the snapshot carrying `id`; unique under well-formedness.
pub open spec fn snap_idx(v: EngineView, id: Seq<char>) -> int {
    choose|i: int| 0 <= i < v.snapshots.len() && v.snapshots[i].id == id
}

/// The snapshot carrying `id`.
pub open spec fn snap_at(v: EngineView, id: Seq<char>) -> SnapView {
    v.snapshots[snap_idx(v, id)]
}

/// The engine invariant: snapshot ids are unique and every manifest, both
/// committed and overlay, is well-formed.
pub open spec fn wf_engine(v: EngineView) -> bool {
    &&& forall|i: int, j: int|
        0 <= i < j < v.snapshots.len() ==> v.snapshots[i].id != v.snapshots[j].id
    &&& forall|i: int|
        0 <= i < v.snapshots.len() ==> manifest::wf_view(#[trigger] v.snapshots[i].manifest)
    &&& forall|i: int|
        0 <= i < v.snapshots.len() ==> match #[trigger] v.snapshots[i].overlay {
            Some(m) => manifest::wf_view(m),
            None => true,
        }
}

/// The engine state with one snapshot replaced.
pub open spec fn with_snap(v: EngineView, i: int, s: SnapView) -> EngineView {
    EngineView { snapshots: v.snapshots.update(i, s), ..v }
}

/// Under well-formedness, the position of a snapshot id is unique.
pub proof fn lemma_snap_idx(v: EngineView, i: int)
    requires
        wf_engine(v),
        0 <= i < v.snapshots.len(),
    ensures
        snap_idx(v, v.snapshots[i].id) == i,
{
    let id = v.snapshots[i].id;
    assert(0 <= i < v.snapshots.len() && v.snapshots[i].id == id);
    let j = snap_idx(v, id);
    assert(0 <= j < v.snapshots.len() && v.snapshots[j].id == id);
    if j < i {
        assert(v.snapshots[j].id != v.snapshots[i].id);
    } else if i < j {
        assert(v.snapshots[i].id != v.snapshots[j].id);
    }
}

/// Replacing a snapshot under its own id with well-formed manifests keeps
/// the engine well-formed.
pub proof fn lemma_wf_with_snap(v: EngineView, i: int, s: SnapView)
    requires
        wf_engine(v),
        0 <= i < v.snapshots.len(),
        s.id == v.snapshots[i].id,
        manifest::wf_view(s.manifest),
        match s.overlay {
            Some(m) => manifest::wf_view(m),
            None => true,
        },
    ensures
        wf_engine(with_snap(v, i, s)),
{
    let v1 = with_snap(v, i, s);
    assert forall|k: int, l: int|
        0 <= k < l < v1.snapshots.len() implies v1.snapshots[k].id != v1.snapshots[l].id by {
        if k != i {
            assert(v1.snapshots[k] == v.snapshots[k]);
        }
        if l != i {
            assert(v1.snapshots[l] == v.snapshots[l]);
        }
    }
    assert forall|k: int|
        0 <= k < v1.snapshots.len() implies manifest::wf_view(#[trigger] v1.snapshots[k].manifest)
        && match v1.snapshots[k].overlay {
        Some(m) => manifest::wf_view(m),
        None => true,
    } by {
        if k != i {
            assert(v1.snapshots[k] == v.snapshots[k]);
        }
    }
}

/// The manifest an operation works against: the transaction's working copy
/// while one is in flight, the committed manifest otherwise.
pub open spec fn work_manifest(s: SnapView) -> ManifestView {
    match s.overlay {
        Some(m) => m,
        None => s.manifest,
    }
}

/// What a tree-sync leaves behind: the target's user-requested set gains
/// every source package its system set does not already own.
pub open spec fn sync_effect(m0: ManifestView, m1: ManifestView, src: Seq<Seq<char>>) -> bool {
    m1.system == m0.system && forall|x: Seq<char>|
        #[trigger] m1.profile.contains(x) <==> m0.profile.contains(x) || (src.contains(x)
            && !m0.system.contains(x))
}

/// The handle of one in-flight transaction: the snapshot it is bound to for
/// its whole lifetime, and whether `prepare` had to flip the snapshot
/// mutable, so that the prior state can be restored on every exit path.
pub struct TransactionContext {
    pub snapshot: String,
    pub flipped: bool,
}

impl Engine {
    pub open spec fn wf(&self) -> bool {
        wf_engine(self@)
    }

    /// An engine that knows no snapshots yet; `current` names the running
    /// snapshot, read once at process start.
    pub fn new(current: &str) -> (e: Self)
        ensures
            e.wf(),
            e@.snapshots == Seq::<SnapView>::empty(),
            !e@.locked,
            e@.current == current@,
            e@.status.code is None,
            e@.status.stamps == Seq::<Seq<char>>::empty(),
    {
        let e = Engine {
            snapshots: Vec::new(),
            locked: false,
            current: current.to_owned(),
            status: StatusLog::new(),
        };
        proof {
            assert(e@.snapshots =~= Seq::<SnapView>::empty());
        }
        e
    }

    /// Position of the snapshot carrying `id`, by exact string equality.
    fn find_snap(&self, id: &str) -> (r: Option<usize>)
        ensures
            match r {
                Some(i) => i < self@.snapshots.len() && self@.snapshots[i as int].id == id@,
                None => !has_snap(self@, id@),
            },
    {
        let mut i: usize = 0;
        while i < self.snapshots.len()
            invariant
                i <= self.snapshots.len(),
                self@.snapshots.len() == self.snapshots@.len(),
                forall|j: int| 0 <= j < i ==> (#[trigger] self@.snapshots[j].id) != id@,
            decreases self.snapshots.len() - i,
        {
            if order::str_eq(self.snapshots[i].id.as_str(), id) {
                return Some(i);
            }
            i = i + 1;
        }
        None
    }

    /// Whether a snapshot with the given id is known.
    pub fn snapshot_exists(&self, id: &str) -> (r: bool)
        ensures
            r == has_snap(self@, id@),
    {
        self.find_snap(id).is_some()
    }

    /// Make a snapshot known to the engine, with its committed manifest and
    /// current mutability, read once at process start.
    pub fn register_snapshot(&mut self, id: &str, mutable: bool, m: ProfileManifest) -> (r: Result<
        (),
        AshError,
    >)
        requires
            old(self).wf(),
            m.wf(),
        ensures
            final(self).wf(),
            match r {
                Ok(()) => !has_snap(old(self)@, id@) && final(self)@ == (EngineView {
                    snapshots: old(self)@.snapshots.push(
                        SnapView { id: id@, manifest: m@, overlay: None, mutable },
                    ),
                    ..old(self)@
                }),
                Err(e) => e == AshError::DuplicateId && has_snap(old(self)@, id@) && final(self)@
                    == old(self)@,
            },
    {
        if self.find_snap(id).is_some() {
            return Err(AshError::DuplicateId);
        }
        let ghost pre = self@;
        let s = SnapshotState { id: id.to_owned(), manifest: m, overlay: None, mutable };
        let ghost sv = s@;
        self.snapshots.push(s);
        proof {
            assert(self@.snapshots =~= pre.snapshots.push(sv));
            assert(self@ =~= (EngineView { snapshots: pre.snapshots.push(sv), ..pre }));
            assert forall|k: int, l: int|
                0 <= k < l < self@.snapshots.len() implies self@.snapshots[k].id
                != self@.snapshots[l].id by {
                assert(self@.snapshots[k] == pre.snapshots[k]);
                if l < pre.snapshots.len() {
                    assert(self@.snapshots[l] == pre.snapshots[l]);
                }
            }
        }
        Ok(())
    }

    /// The id of the running snapshot.
    pub fn get_current_snapshot(&self) -> (r: String)
        ensures
            r@ == self@.current,
    {
        self.current.clone()
    }

    /// Whether the lock protecting system-owned packages is active.
    pub fn is_locked(&self) -> (r: bool)
        ensures
            r == self@.locked,
    {
        self.locked
    }

    /// Switch the lock that prevents system packages from being removed.
    pub fn lockpkg(&mut self, on: bool)
        ensures
            final(self)@ == (EngineView { locked: on, ..old(self)@ }),
    {
        self.locked = on;
        proof {
            assert(self@ =~= (EngineView { locked: on, ..old(self)@ }));
        }
    }

    /// Adopt a status log read from disk, so that the historical timestamp
    /// lines survive this process's own records.
    pub fn restore_status(&mut self, log: StatusLog)
        ensures
            final(self)@ == (EngineView { status: log@, ..old(self)@ }),
    {
        let ghost lv = log@;
        self.status = log;
        proof {
            assert(self@ =~= (EngineView { status: lv, ..old(self)@ }));
        }
    }

    /// The last auto-upgrade outcome, as the status log records it.
    pub fn upgrade_status(&self) -> (r: Option<bool>)
        ensures
            r == self@.status.code,
    {
        self.status.latest()
    }

    /// The persisted form of the status log.
    pub fn render_status(&self) -> (r: String)
        ensures
            r@ == crate::status::ser_status(self@.status),
    {
        self.status.render()
    }

    /// The mutability flag of a snapshot, absent for unknown ids.
    pub fn check_mutability(&self, snapshot: &str) -> (r: Option<bool>)
        requires
            self.wf(),
        ensures
            match r {
                Some(b) => has_snap(self@, snapshot@) && b == snap_at(self@, snapshot@).mutable,
                None => !has_snap(self@, snapshot@),
            },
    {
        match self.find_snap(snapshot) {
            None => None,
            Some(i) => {
                proof {
                    lemma_snap_idx(self@, i as int);
                }
                Some(self.snapshots[i].mutable)
            },
        }
    }

    /// Whether a transaction currently holds an overlay for the snapshot;
    /// absent for unknown ids.
    pub fn is_in_use(&self, snapshot: &str) -> (r: Option<bool>)
        requires
            self.wf(),
        ensures
            match r {
                Some(b) => has_snap(self@, snapshot@) && b == (snap_at(
                    self@,
                    snapshot@,
                ).overlay is Some),
                None => !has_snap(self@, snapshot@),
            },
    {
        match self.find_snap(snapshot) {
            None => None,
            Some(i) => {
                proof {
                    lemma_snap_idx(self@, i as int);
                }
                Some(self.snapshots[i].overlay.is_some())
            },
        }
    }

    /// Open a transaction on `snapshot`: an unknown snapshot is `NotFound`,
    /// a second in-flight transaction per snapshot is refused as `InUse`,
    /// and the base snapshot is `Protected`. On success the working copy of
    /// the manifest exists and the snapshot is mutable, the prior
    /// mutability recorded in the context for restoration.
    pub fn prepare(&mut self, snapshot: &str) -> (r: Result<TransactionContext, AshError>)
        requires
            old(self).wf(),
        ensures
            final(self).wf(),
            match r {
                Ok(tx) => {
                    let v0 = old(self)@;
                    let s0 = snap_at(v0, snapshot@);
                    &&& has_snap(v0, snapshot@)
                    &&& s0.overlay is None
                    &&& snapshot@ != "0"@
                    &&& tx.snapshot@ == snapshot@
                    &&& tx.flipped == !s0.mutable
                    &&& final(self)@ == with_snap(
                        v0,
                        snap_idx(v0, snapshot@),
                        SnapView { overlay: Some(s0.manifest), mutable: true, ..s0 },
                    )
                },
                Err(e) => final(self)@ == old(self)@ && if !has_snap(old(self)@, snapshot@) {
                    e == AshError::NotFound
                } else if snap_at(old(self)@, snapshot@).overlay is Some {
                    e == AshError::InUse
                } else {
                    snapshot@ == "0"@ && e == AshError::Protected
                },
            },
    {
        let i = match self.find_snap(snapshot) {
            None => {
                return Err(AshError::NotFound);
            },
            Some(i) => i,
        };
        proof {
            lemma_snap_idx(self@, i as int);
        }
        if self.snapshots[i].overlay.is_some() {
            return Err(AshError::InUse);
        }
        if order::str_eq(snapshot, "0") {
            return Err(AshError::Protected);
        }
        let ghost v0 = self@;
        let ghost s0 = snap_at(v0, snapshot@);
        let working = self.snapshots[i].manifest.duplicate();
        let was_mutable = self.snapshots[i].mutable;
        self.snapshots[i].overlay = Some(working);
        self.snapshots[i].mutable = true;
        proof {
            assert(self@.snapshots =~= v0.snapshots.update(
                i as int,
                SnapView { overlay: Some(s0.manifest), mutable: true, ..s0 },
            ));
            assert(self@ =~= with_snap(
                v0,
                i as int,
                SnapView { overlay: Some(s0.manifest), mutable: true, ..s0 },
            ));
            lemma_wf_with_snap(
                v0,
                i as int,
                SnapView { overlay: Some(s0.manifest), mutable: true, ..s0 },
            );
        }
        Ok(TransactionContext { snapshot: snapshot.to_owned(), flipped: !was_mutable })
    }

    /// Fold the transaction's working copy back into the committed
    /// manifest, drop the overlay, and restore the prior mutability.
    pub fn commit(&mut self, tx: TransactionContext)
        requires
            old(self).wf(),
            has_snap(old(self)@, tx.snapshot@),
            snap_at(old(self)@, tx.snapshot@).overlay is Some,
        ensures
            final(self).wf(),
            final(self)@ == with_snap(
                old(self)@,
                snap_idx(old(self)@, tx.snapshot@),
                SnapView {
                    manifest: snap_at(old(self)@, tx.snapshot@).overlay.unwrap(),
                    overlay: None,
                    mutable: if tx.flipped {
                        false
                    } else {
                        snap_at(old(self)@, tx.snapshot@).mutable
                    },
                    ..snap_at(old(self)@, tx.snapshot@)
                },
            ),
    {
        self.close_transaction(tx, true)
    }

    /// Tear the transaction's working copy down without persisting
    /// anything, and restore the prior mutability. Invoked on every failure
    /// path: no transaction may leak its overlay.
    pub fn discard(&mut self, tx: TransactionContext)
        requires
            old(self).wf(),
            has_snap(old(self)@, tx.snapshot@),
            snap_at(old(self)@, tx.snapshot@).overlay is Some,
        ensures
            final(self).wf(),
            final(self)@ == with_snap(
                old(self)@,
                snap_idx(old(self)@, tx.snapshot@),
                SnapView {
                    overlay: None,
                    mutable: if tx.flipped {
                        false
                    } else {
                        snap_at(old(self)@, tx.snapshot@).mutable
                    },
                    ..snap_at(old(self)@, tx.snapshot@)
                },
            ),
    {
        self.close_transaction(tx, false)
    }

    fn close_transaction(&mut self, tx: TransactionContext, keep: bool)
        requires
            old(self).wf(),
            has_snap(old(self)@, tx.snapshot@),
            snap_at(old(self)@, tx.snapshot@).overlay is Some,
        ensures
            final(self).wf(),
            final(self)@ == with_snap(
                old(self)@,
                snap_idx(old(self)@, tx.snapshot@),
                SnapView {
                    manifest: if keep {
                        snap_at(old(self)@, tx.snapshot@).overlay.unwrap()
                    } else {
                        snap_at(old(self)@, tx.snapshot@).manifest
                    },
                    overlay: None,
                    mutable: if tx.flipped {
                        false
                    } else {
                        snap_at(old(self)@, tx.snapshot@).mutable
                    },
                    ..snap_at(old(self)@, tx.snapshot@)
                },
            ),
    {
        let ghost v0 = self@;
        let i = match self.find_snap(tx.snapshot.as_str()) {
            None => {
                proof {
                    assert(false);
                }
                return ;
            },
            Some(i) => i,
        };
        proof {
            lemma_snap_idx(v0, i as int);
        }
        let taken = self.snapshots[i].overlay.take();
        match taken {
            Some(working) => {
                if keep {
                    self.snapshots[i].manifest = working;
                }
            },
            None => {
                proof {
                    assert(false);
                }
            },
        }
        if tx.flipped {
            self.snapshots[i].mutable = false;
        }
        proof {
            let s0 = snap_at(v0, tx.snapshot@);
            let s1 = SnapView {
                manifest: if keep {
                    s0.overlay.unwrap()
                } else {
                    s0.manifest
                },
                overlay: None,
                mutable: if tx.flipped {
                    false
                } else {
                    s0.mutable
                },
                ..s0
            };
            assert(self@.snapshots =~= v0.snapshots.update(i as int, s1));
            assert(self@ =~= with_snap(v0, i as int, s1));
            lemma_wf_with_snap(v0, i as int, s1);
        }
    }

    /// One step of the install workflow, after the caller ran the install
    /// command for `pkg` inside the overlay: a failed command surfaces as
    /// an operation failure and changes nothing; a successful one records
    /// the package in the working copy's user-requested set unless the
    /// system set owns it. The workflow begins with `prepare`, whose
    /// contract proves that a failing begin propagates its typed error with
    /// the whole state — every manifest included — untouched.
    pub fn install_package_helper(&mut self, snapshot: &str, pkg: &str, exit_ok: bool) -> (r:
        Result<(), AshError>)
        requires
            old(self).wf(),
            has_snap(old(self)@, snapshot@),
            snap_at(old(self)@, snapshot@).overlay is Some,
        ensures
            final(self).wf(),
            match r {
                Ok(()) => exit_ok && manifest::valid_pkg(pkg@) && {
                    let v0 = old(self)@;
                    let s0 = snap_at(v0, snapshot@);
                    let s1 = snap_at(final(self)@, snapshot@);
                    &&& s1.overlay is Some
                    &&& final(self)@ == with_snap(
                        v0,
                        snap_idx(v0, snapshot@),
                        SnapView { overlay: s1.overlay, ..s0 },
                    )
                    &&& manifest::add_effect(
                        s0.overlay.unwrap(),
                        s1.overlay.unwrap(),
                        SetName::ProfilePackages,
                        pkg@,
                    )
                },
                Err(e) => final(self)@ == old(self)@ && if exit_ok {
                    e == AshError::InvalidId && !manifest::valid_pkg(pkg@)
                } else {
                    match e {
                        AshError::OperationFailed { op, pkg: p } => op == OpKind::Install
                            && p.deep_view() == Some(pkg@),
                        _ => false,
                    }
                },
            },
    {
        if !exit_ok {
            return Err(AshError::OperationFailed { op: OpKind::Install, pkg: Some(pkg.to_owned()) });
        }
        let ghost v0 = self@;
        let i = match self.find_snap(snapshot) {
            None => {
                proof {
                    assert(false);
                }
                return Err(AshError::NotFound);
            },
            Some(i) => i,
        };
        proof {
            lemma_snap_idx(v0, i as int);
        }
        let taken = self.snapshots[i].overlay.take();
        let mut working = match taken {
            Some(w) => w,
            None => {
                proof {
                    assert(false);
                }
                return Err(AshError::NotFound);
            },
        };
        let ghost m0 = working@;
        let res = working.add(SetName::ProfilePackages, pkg);
        let ghost m1 = working@;
        self.snapshots[i].overlay = Some(working);
        proof {
            let s0 = snap_at(v0, snapshot@);
            let s1 = SnapView { overlay: Some(m1), ..s0 };
            assert(self@.snapshots =~= v0.snapshots.update(i as int, s1));
            assert(self@ =~= with_snap(v0, i as int, s1));
            lemma_wf_with_snap(v0, i as int, s1);
            if res is Err {
                assert(m1 == m0);
                assert(s1 =~= s0);
                assert(self@ =~= v0) by {
                    assert(v0.snapshots.update(i as int, s0) =~= v0.snapshots);
                }
            } else {
                lemma_snap_idx(self@, i as int);
                assert(snap_at(self@, snapshot@) == s1);
            }
        }
        match res {
            Ok(()) => Ok(()),
            Err(e) => Err(e),
        }
    }

    /// The whole-operation lock gate of an uninstall: when the lock is
    /// active and any requested package is system-owned, the operation is
    /// refused before any package-manager command runs.
    pub fn uninstall_precheck(&self, snapshot: &str, pkgs: &Vec<String>) -> (r: Result<
        (),
        AshError,
    >)
        requires
            self.wf(),
            has_snap(self@, snapshot@),
        ensures
            match r {
                Ok(()) => !(self@.locked && exists|k: int|
                    0 <= k < pkgs.deep_view().len() && work_manifest(
                        snap_at(self@, snapshot@),
                    ).system.contains(#[trigger] pkgs.deep_view()[k])),
                Err(e) => e == AshError::RemovalNotAllowed && self@.locked && exists|k: int|
                    0 <= k < pkgs.deep_view().len() && work_manifest(
                        snap_at(self@, snapshot@),
                    ).system.contains(#[trigger] pkgs.deep_view()[k]),
            },
    {
        if !self.is_locked() {
            return Ok(());
        }
        let ghost v = self@;
        let i = match self.find_snap(snapshot) {
            None => {
                proof {
                    assert(false);
                }
                return Ok(());
            },
            Some(i) => i,
        };
        proof {
            lemma_snap_idx(v, i as int);
        }
        proof {
            assert(self@.snapshots[i as int] == self.snapshots@[i as int]@);
        }
        let m: &ProfileManifest = match &self.snapshots[i].overlay {
            Some(w) => w,
            None => &self.snapshots[i].manifest,
        };
        let mut k: usize = 0;
        while k < pkgs.len()
            invariant
                k <= pkgs.len(),
                self@.locked,
                v == self@,
                pkgs.deep_view().len() == pkgs@.len(),
                m@ == work_manifest(snap_at(v, snapshot@)),
                forall|j: int|
                    0 <= j < k ==> !work_manifest(snap_at(v, snapshot@)).system.contains(
                        #[trigger] pkgs.deep_view()[j],
                    ),
            decreases pkgs.len() - k,
        {
            proof {
                assert(pkgs@[k as int]@ == pkgs.deep_view()[k as int]);
            }
            if m.is_system_package(pkgs[k].as_str()) {
                proof {
                    assert(work_manifest(snap_at(v, snapshot@)).system.contains(
                        pkgs.deep_view()[k as int],
                    ));
                }
                return Err(AshError::RemovalNotAllowed);
            }
            k = k + 1;
        }
        Ok(())
    }

    /// One step of the uninstall workflow, after the caller ran the remove
    /// command: the lock gate is tested again defensively, a failed command
    /// surfaces as an operation failure, and a successful one drops the
    /// package from whichever set of the working copy recorded it.
    pub fn uninstall_package_helper(&mut self, snapshot: &str, pkg: &str, exit_ok: bool) -> (r:
        Result<(), AshError>)
        requires
            old(self).wf(),
            has_snap(old(self)@, snapshot@),
            snap_at(old(self)@, snapshot@).overlay is Some,
        ensures
            final(self).wf(),
            match r {
                Ok(()) => exit_ok && !(old(self)@.locked && snap_at(
                    old(self)@,
                    snapshot@,
                ).overlay.unwrap().system.contains(pkg@)) && {
                    let v0 = old(self)@;
                    let s0 = snap_at(v0, snapshot@);
                    let s1 = snap_at(final(self)@, snapshot@);
                    &&& s1.overlay is Some
                    &&& final(self)@ == with_snap(
                        v0,
                        snap_idx(v0, snapshot@),
                        SnapView { overlay: s1.overlay, ..s0 },
                    )
                    &&& manifest::uninstall_effect(
                        s0.overlay.unwrap(),
                        s1.overlay.unwrap(),
                        pkg@,
                    )
                },
                Err(e) => final(self)@ == old(self)@ && if old(self)@.locked && snap_at(
                    old(self)@,
                    snapshot@,
                ).overlay.unwrap().system.contains(pkg@) {
                    e == AshError::RemovalNotAllowed
                } else {
                    !exit_ok && match e {
                        AshError::OperationFailed { op, pkg: p } => op == OpKind::Uninstall
                            && p.deep_view() == Some(pkg@),
                        _ => false,
                    }
                },
            },
    {
        let ghost v0 = self@;
        let i = match self.find_snap(snapshot) {
            None => {
                proof {
                    assert(false);
                }
                return Err(AshError::NotFound);
            },
            Some(i) => i,
        };
        proof {
            lemma_snap_idx(v0, i as int);
        }
        let system_owned = match &self.snapshots[i].overlay {
            Some(w) => w.is_system_package(pkg),
            None => false,
        };
        if self.locked && system_owned {
            return Err(AshError::RemovalNotAllowed);
        }
        if !exit_ok {
            return Err(
                AshError::OperationFailed { op: OpKind::Uninstall, pkg: Some(pkg.to_owned()) },
            );
        }
        let taken = self.snapshots[i].overlay.take();
        let mut working = match taken {
            Some(w) => w,
            None => {
                proof {
                    assert(false);
                }
                return Err(AshError::NotFound);
            },
        };
        let ghost m0 = working@;
        if working.contains(SetName::ProfilePackages, pkg) {
            working.remove(SetName::ProfilePackages, pkg);
        } else if working.contains(SetName::SystemPackages, pkg) {
            working.remove(SetName::SystemPackages, pkg);
        }
        let ghost m1 = working@;
        proof {
            if m0.profile.contains(pkg@) {
            } else if m0.system.contains(pkg@) {
                assert(manifest::remove_effect(m0, m1, SetName::SystemPackages, pkg@));
            } else {
                assert(m1 =~= m0);
            }
            assert(manifest::uninstall_effect(m0, m1, pkg@));
        }
        self.snapshots[i].overlay = Some(working);
        proof {
            let s0 = snap_at(v0, snapshot@);
            let s1 = SnapView { overlay: Some(m1), ..s0 };
            assert(self@.snapshots =~= v0.snapshots.update(i as int, s1));
            assert(self@ =~= with_snap(v0, i as int, s1));
            lemma_wf_with_snap(v0, i as int, s1);
            lemma_snap_idx(self@, i as int);
            assert(snap_at(self@, snapshot@) == s1);
        }
        Ok(())
    }

    /// Begin a non-interactive upgrade: open a transaction on the snapshot
    /// and hand back the index-refresh command to run inside its overlay.
    /// A missing snapshot fails fast with `NotFound` and leaves the whole
    /// state, the status log included, unchanged.
    pub fn auto_upgrade(&mut self, snapshot: &str) -> (r: Result<
        (TransactionContext, Vec<String>),
        AshError,
    >)
        requires
            old(self).wf(),
        ensures
            final(self).wf(),
            match r {
                Ok((tx, cmd)) => {
                    let v0 = old(self)@;
                    let s0 = snap_at(v0, snapshot@);
                    &&& has_snap(v0, snapshot@)
                    &&& s0.overlay is None
                    &&& snapshot@ != "0"@
                    &&& tx.snapshot@ == snapshot@
                    &&& tx.flipped == !s0.mutable
                    &&& final(self)@ == with_snap(
                        v0,
                        snap_idx(v0, snapshot@),
                        SnapView { overlay: Some(s0.manifest), mutable: true, ..s0 },
                    )
                    &&& cmd.deep_view() == commands::refresh_cmd(
                        commands::chroot_path_spec(snapshot@),
                    )
                },
                Err(e) => final(self)@ == old(self)@ && if !has_snap(old(self)@, snapshot@) {
                    e == AshError::NotFound
                } else if snap_at(old(self)@, snapshot@).overlay is Some {
                    e == AshError::InUse
                } else {
                    snapshot@ == "0"@ && e == AshError::Protected
                },
            },
    {
        let tx = match self.prepare(snapshot) {
            Ok(tx) => tx,
            Err(e) => {
                return Err(e);
            },
        };
        let cmd = commands::refresh_helper(snapshot);
        Ok((tx, cmd))
    }

    /// Finish a non-interactive upgrade after the caller ran the refresh:
    /// commit on success, discard on failure, and either way overwrite the
    /// status code and append the timestamp to the status log.
    pub fn auto_upgrade_finish(&mut self, tx: TransactionContext, success: bool, timestamp: String)
        requires
            old(self).wf(),
            has_snap(old(self)@, tx.snapshot@),
            snap_at(old(self)@, tx.snapshot@).overlay is Some,
        ensures
            final(self).wf(),
            final(self)@ == (EngineView {
                status: StatusView {
                    code: Some(success),
                    stamps: old(self)@.status.stamps.push(timestamp@),
                },
                ..with_snap(
                    old(self)@,
                    snap_idx(old(self)@, tx.snapshot@),
                    SnapView {
                        manifest: if success {
                            snap_at(old(self)@, tx.snapshot@).overlay.unwrap()
                        } else {
                            snap_at(old(self)@, tx.snapshot@).manifest
                        },
                        overlay: None,
                        mutable: if tx.flipped {
                            false
                        } else {
                            snap_at(old(self)@, tx.snapshot@).mutable
                        },
                        ..snap_at(old(self)@, tx.snapshot@)
                    },
                )
            }),
    {
        let ghost v0 = self@;
        if success {
            self.commit(tx);
        } else {
            self.discard(tx);
        }
        self.status.record(success, timestamp);
        proof {
            assert(self@ =~= (EngineView {
                status: StatusView {
                    code: Some(success),
                    stamps: v0.status.stamps.push(self@.status.stamps.last()),
                },
                ..self@
            }));
        }
    }

    /// The canonical persisted form of the snapshot's committed manifest,
    /// for the whole-file rewrite after a commit.
    pub fn render_manifest(&self, snapshot: &str) -> (r: Result<String, AshError>)
        requires
            self.wf(),
        ensures
            match r {
                Ok(text) => has_snap(self@, snapshot@) && text@ == manifest::ser_manifest(
                    snap_at(self@, snapshot@).manifest,
                ),
                Err(e) => e == AshError::NotFound && !has_snap(self@, snapshot@),
            },
    {
        let i = match self.find_snap(snapshot) {
            None => {
                return Err(AshError::NotFound);
            },
            Some(i) => i,
        };
        proof {
            lemma_snap_idx(self@, i as int);
            assert(self@.snapshots[i as int] == self.snapshots@[i as int]@);
            assert(manifest::wf_view(self@.snapshots[i as int].manifest));
        }
        Ok(self.snapshots[i].manifest.save())
    }

    /// Whether a package-database repair may proceed: an empty id resolves
    /// to the current running snapshot; the resolved snapshot must exist,
    /// must not be held by another transaction, and must not be the base
    /// snapshot.
    pub fn fix_package_db(&self, snapshot: &str) -> (r: Result<String, AshError>)
        requires
            self.wf(),
        ensures
            ({
                let target: Seq<char> = if snapshot@.len() == 0 {
                    self@.current
                } else {
                    snapshot@
                };
                match r {
                    Ok(resolved) => resolved@ == target && has_snap(self@, target) && snap_at(
                        self@,
                        target,
                    ).overlay is None && target != "0"@,
                    Err(e) => if !has_snap(self@, target) {
                        e == AshError::NotFound
                    } else if snap_at(self@, target).overlay is Some {
                        e == AshError::InUse
                    } else {
                        target == "0"@ && e == AshError::Protected
                    },
                }
            }),
    {
        let resolved: String = if snapshot.unicode_len() == 0 {
            self.current.clone()
        } else {
            snapshot.to_owned()
        };
        let i = match self.find_snap(resolved.as_str()) {
            None => {
                return Err(AshError::NotFound);
            },
            Some(i) => i,
        };
        proof {
            lemma_snap_idx(self@, i as int);
        }
        if self.snapshots[i].overlay.is_some() {
            return Err(AshError::InUse);
        }
        if order::str_eq(resolved.as_str(), "0") {
            return Err(AshError::Protected);
        }
        Ok(resolved)
    }

    /// Every package installed in the snapshot, merged and sorted. An empty
    /// `chr` reads the committed manifest; otherwise the in-flight working
    /// copy is read and must exist.
    pub fn pkg_list(&self, snapshot: &str, chr: &str) -> (r: Result<Vec<String>, AshError>)
        requires
            self.wf(),
        ensures
            match r {
                Ok(v) => has_snap(self@, snapshot@) && {
                    let s = snap_at(self@, snapshot@);
                    let m = if chr@.len() == 0 {
                        s.manifest
                    } else {
                        s.overlay.unwrap()
                    };
                    &&& (chr@.len() > 0 ==> s.overlay is Some)
                    &&& manifest::sorted_strict(v.deep_view())
                    &&& forall|x: Seq<char>|
                        v.deep_view().contains(x) <==> manifest::member(m, x)
                },
                Err(e) => e == AshError::NotFound && (!has_snap(self@, snapshot@) || (chr@.len()
                    > 0 && snap_at(self@, snapshot@).overlay is None)),
            },
    {
        let i = match self.find_snap(snapshot) {
            None => {
                return Err(AshError::NotFound);
            },
            Some(i) => i,
        };
        proof {
            lemma_snap_idx(self@, i as int);
            assert(self@.snapshots[i as int] == self.snapshots@[i as int]@);
            assert(manifest::wf_view(self@.snapshots[i as int].manifest));
            assert(match self@.snapshots[i as int].overlay {
                Option::Some(m) => manifest::wf_view(m),
                Option::None => true,
            });
        }
        let m: &ProfileManifest = if chr.unicode_len() == 0 {
            &self.snapshots[i].manifest
        } else {
            match &self.snapshots[i].overlay {
                Some(w) => w,
                None => {
                    return Err(AshError::NotFound);
                },
            }
        };
        Ok(m.all_packages())
    }

    /// The user-requested packages of the snapshot: those installed
    /// explicitly rather than as dependencies or as part of the base image.
    pub fn no_dep_pkg_list(&self, snapshot: &str, chr: &str) -> (r: Result<Vec<String>, AshError>)
        requires
            self.wf(),
        ensures
            match r {
                Ok(v) => has_snap(self@, snapshot@) && {
                    let s = snap_at(self@, snapshot@);
                    let m = if chr@.len() == 0 {
                        s.manifest
                    } else {
                        s.overlay.unwrap()
                    };
                    &&& (chr@.len() > 0 ==> s.overlay is Some)
                    &&& v.deep_view() == m.profile
                },
                Err(e) => e == AshError::NotFound && (!has_snap(self@, snapshot@) || (chr@.len()
                    > 0 && snap_at(self@, snapshot@).overlay is None)),
            },
    {
        let i = match self.find_snap(snapshot) {
            None => {
                return Err(AshError::NotFound);
            },
            Some(i) => i,
        };
        proof {
            lemma_snap_idx(self@, i as int);
            assert(self@.snapshots[i as int] == self.snapshots@[i as int]@);
            assert(manifest::wf_view(self@.snapshots[i as int].manifest));
            assert(match self@.snapshots[i as int].overlay {
                Option::Some(m) => manifest::wf_view(m),
                Option::None => true,
            });
        }
        let m: &ProfileManifest = if chr.unicode_len() == 0 {
            &self.snapshots[i].manifest
        } else {
            match &self.snapshots[i].overlay {
                Some(w) => w,
                None => {
                    return Err(AshError::NotFound);
                },
            }
        };
        Ok(manifest::clone_string_vec(m.profile_packages()))
    }

    /// The commands that reinstall every base (system-owned) package of the
    /// snapshot inside its overlay, non-interactively.
    pub fn bootstrap(&self, snapshot: &str) -> (r: Result<Vec<Vec<String>>, AshError>)
        requires
            self.wf(),
        ensures
            match r {
                Ok(v) => has_snap(self@, snapshot@) && {
                    let sys = snap_at(self@, snapshot@).manifest.system;
                    &&& v@.len() == sys.len()
                    &&& forall|k: int|
                        0 <= k < v@.len() ==> (#[trigger] v@[k]).deep_view()
                            == commands::install_cmd(
                            commands::chroot_path_spec(snapshot@),
                            sys[k],
                            true,
                        )
                },
                Err(e) => e == AshError::NotFound && !has_snap(self@, snapshot@),
            },
    {
        let i = match self.find_snap(snapshot) {
            None => {
                return Err(AshError::NotFound);
            },
            Some(i) => i,
        };
        proof {
            lemma_snap_idx(self@, i as int);
            assert(self@.snapshots[i as int] == self.snapshots@[i as int]@);
        }
        Ok(
            commands::install_package_helper_chroot(
                snapshot,
                self.snapshots[i].manifest.system_packages(),
                true,
            ),
        )
    }

    /// The package sets that differ between two snapshots: those only in
    /// the first, and those only in the second, each sorted.
    pub fn snapshot_diff(&self, snapshot1: &str, snapshot2: &str) -> (r: Result<
        (Vec<String>, Vec<String>),
        AshError,
    >)
        requires
            self.wf(),
        ensures
            match r {
                Ok((only1, only2)) => has_snap(self@, snapshot1@) && has_snap(self@, snapshot2@)
                    && {
                    let m1 = snap_at(self@, snapshot1@).manifest;
                    let m2 = snap_at(self@, snapshot2@).manifest;
                    &&& manifest::sorted_strict(only1.deep_view())
                    &&& manifest::sorted_strict(only2.deep_view())
                    &&& forall|x: Seq<char>|
                        only1.deep_view().contains(x) <==> manifest::member(m1, x)
                            && !manifest::member(m2, x)
                    &&& forall|x: Seq<char>|
                        only2.deep_view().contains(x) <==> manifest::member(m2, x)
                            && !manifest::member(m1, x)
                },
                Err(e) => e == AshError::NotFound && (!has_snap(self@, snapshot1@) || !has_snap(
                    self@,
                    snapshot2@,
                )),
            },
    {
        let i = match self.find_snap(snapshot1) {
            None => {
                return Err(AshError::NotFound);
            },
            Some(i) => i,
        };
        let j = match self.find_snap(snapshot2) {
            None => {
                return Err(AshError::NotFound);
            },
            Some(j) => j,
        };
        proof {
            lemma_snap_idx(self@, i as int);
            lemma_snap_idx(self@, j as int);
            assert(self@.snapshots[i as int] == self.snapshots@[i as int]@);
            assert(self@.snapshots[j as int] == self.snapshots@[j as int]@);
            assert(manifest::wf_view(self@.snapshots[i as int].manifest));
            assert(manifest::wf_view(self@.snapshots[j as int].manifest));
        }
        let only1 = manifest::diff_packages(&self.snapshots[i].manifest, &self.snapshots[j].manifest);
        let only2 = manifest::diff_packages(&self.snapshots[j].manifest, &self.snapshots[i].manifest);
        Ok((only1, only2))
    }

    /// Carry the user-requested packages of snapshot `s_f` over into the
    /// committed manifest of snapshot `s_t`; packages the target's system
    /// set already owns are left where they are.
    pub fn tree_sync_helper(&mut self, s_f: &str, s_t: &str) -> (r: Result<(), AshError>)
        requires
            old(self).wf(),
        ensures
            final(self).wf(),
            match r {
                Ok(()) => has_snap(old(self)@, s_f@) && has_snap(old(self)@, s_t@) && {
                    let v0 = old(self)@;
                    let t0 = snap_at(v0, s_t@);
                    let t1 = snap_at(final(self)@, s_t@);
                    &&& final(self)@ == with_snap(
                        v0,
                        snap_idx(v0, s_t@),
                        SnapView { manifest: t1.manifest, ..t0 },
                    )
                    &&& sync_effect(
                        t0.manifest,
                        t1.manifest,
                        snap_at(v0, s_f@).manifest.profile,
                    )
                },
                Err(e) => e == AshError::NotFound && final(self)@ == old(self)@ && (!has_snap(
                    old(self)@,
                    s_f@,
                ) || !has_snap(old(self)@, s_t@)),
            },
    {
        let ghost v0 = self@;
        let fi = match self.find_snap(s_f) {
            None => {
                return Err(AshError::NotFound);
            },
            Some(i) => i,
        };
        let ti = match self.find_snap(s_t) {
            None => {
                return Err(AshError::NotFound);
            },
            Some(i) => i,
        };
        proof {
            lemma_snap_idx(v0, fi as int);
            lemma_snap_idx(v0, ti as int);
            assert(self@.snapshots[fi as int] == self.snapshots@[fi as int]@);
            assert(manifest::wf_view(self@.snapshots[fi as int].manifest));
        }
        let src = manifest::clone_string_vec(self.snapshots[fi].manifest.profile_packages());
        let ghost sdv = src.deep_view();
        let ghost t0 = snap_at(v0, s_t@);
        let mut k: usize = 0;
        proof {
            assert(v0.snapshots.update(ti as int, t0) =~= v0.snapshots);
            assert(with_snap(v0, ti as int, t0) =~= v0);
            assert(sdv.take(0) =~= Seq::<Seq<char>>::empty());
        }
        while k < src.len()
            invariant
                k <= src.len(),
                self.wf(),
                sdv == src.deep_view(),
                sdv.len() == src@.len(),
                sdv == snap_at(v0, s_f@).manifest.profile,
                wf_engine(v0),
                0 <= snap_idx(v0, s_t@) < v0.snapshots.len(),
                ti as int == snap_idx(v0, s_t@),
                t0 == snap_at(v0, s_t@),
                manifest::all_valid(sdv),
                self@ == with_snap(
                    v0,
                    ti as int,
                    SnapView { manifest: snap_at(self@, s_t@).manifest, ..t0 },
                ),
                has_snap(self@, s_t@),
                snap_idx(self@, s_t@) == ti as int,
                sync_effect(
                    t0.manifest,
                    snap_at(self@, s_t@).manifest,
                    sdv.take(k as int),
                ),
            decreases src.len() - k,
        {
            let ghost vpre = self@;
            let ghost mpre = snap_at(vpre, s_t@).manifest;
            proof {
                assert(src@[k as int]@ == sdv[k as int]);
                assert(manifest::valid_pkg(sdv[k as int]));
                assert(self@.snapshots[ti as int] == self.snapshots@[ti as int]@);
                assert(manifest::wf_view(self@.snapshots[ti as int].manifest));
                assert(sync_effect(t0.manifest, mpre, sdv.take(k as int)));
                assert(mpre == self.snapshots@[ti as int]@.manifest);
            }
            let res = self.snapshots[ti].manifest.add(
                SetName::ProfilePackages,
                src[k].as_str(),
            );
            proof {
                let m1 = self.snapshots@[ti as int]@.manifest;
                assert(self@.snapshots =~= vpre.snapshots.update(
                    ti as int,
                    SnapView { manifest: m1, ..t0 },
                ));
                assert(self@ =~= with_snap(v0, ti as int, SnapView { manifest: m1, ..t0 }))
                    by {
                    assert(vpre.snapshots.update(
                        ti as int,
                        SnapView { manifest: m1, ..t0 },
                    ) =~= v0.snapshots.update(ti as int, SnapView { manifest: m1, ..t0 }));
                }
                lemma_wf_with_snap(v0, ti as int, SnapView { manifest: m1, ..t0 });
                lemma_snap_idx(self@, ti as int);
                assert(res is Ok);
                assert(manifest::add_effect(
                    mpre,
                    m1,
                    SetName::ProfilePackages,
                    sdv[k as int],
                ));
                assert(sdv.take(k + 1) =~= sdv.take(k as int).push(sdv[k as int]));
                let pkg = sdv[k as int];
                assert forall|x: Seq<char>|
                    sdv.take(k + 1).contains(x) <==> sdv.take(k as int).contains(x) || x
                        == pkg by {
                    if sdv.take(k + 1).contains(x) {
                        let l = choose|l: int|
                            0 <= l < sdv.take(k + 1).len() && #[trigger] sdv.take(k + 1)[l]
                                == x;
                        if l < k {
                            assert(sdv.take(k as int)[l] == x);
                            assert(sdv.take(k as int).contains(x));
                        }
                    }
                    if sdv.take(k as int).contains(x) {
                        let l = choose|l: int|
                            0 <= l < sdv.take(k as int).len() && #[trigger] sdv.take(
                                k as int,
                            )[l] == x;
                        assert(sdv.take(k + 1)[l] == x);
                        assert(sdv.take(k + 1).contains(x));
                    }
                    if x == pkg {
                        assert(sdv.take(k + 1).last() == x);
                        assert(sdv.take(k + 1).contains(x));
                    }
                }
                assert(mpre.system == t0.manifest.system);
                assert(manifest::set_of(mpre, manifest::other_of(SetName::ProfilePackages))
                    == mpre.system);
                assert forall|x: Seq<char>|
                    m1.profile.contains(x) <==> t0.manifest.profile.contains(x) || (sdv.take(
                        k + 1,
                    ).contains(x) && !t0.manifest.system.contains(x)) by {
                    if mpre.system.contains(pkg) {
                        assert(m1 == mpre);
                        assert(mpre.profile.contains(x) <==> t0.manifest.profile.contains(x)
                            || (sdv.take(k as int).contains(x) && !t0.manifest.system.contains(
                            x,
                        )));
                        if x == pkg {
                            assert(t0.manifest.system.contains(x));
                        }
                    } else {
                        assert(manifest::set_of(m1, SetName::ProfilePackages) == m1.profile);
                        assert(m1.profile.contains(x) <==> mpre.profile.contains(x) || x
                            == pkg);
                        assert(mpre.profile.contains(x) <==> t0.manifest.profile.contains(x)
                            || (sdv.take(k as int).contains(x) && !t0.manifest.system.contains(
                            x,
                        )));
                        if x == pkg {
                            assert(!t0.manifest.system.contains(x));
                            assert(sdv.take(k + 1)[k as int] == x);
                            assert(sdv.take(k + 1).contains(x));
                        }
                    }
                }
                assert(m1.system == t0.manifest.system) by {
                    if mpre.system.contains(pkg) {
                        assert(m1 == mpre);
                    } else {
                        assert(manifest::set_of(m1, manifest::other_of(SetName::ProfilePackages))
                            == m1.system);
                    }
                }
            }
            k = k + 1;
        }
        proof {
            assert(sdv.take(sdv.len() as int) =~= sdv);
        }
        Ok(())
    }
}

/// Rolling a transaction back restores the engine exactly: after a
/// `prepare` whose working copy is then discarded, no overlay persists, the
/// committed manifest is untouched, and the prior mutability stands again.
pub proof fn lemma_transaction_rollback(
    v0: EngineView,
    v1: EngineView,
    v2: EngineView,
    snapshot: Seq<char>,
    flipped: bool,
)
    requires
        wf_engine(v0),
        has_snap(v0, snapshot),
        snap_at(v0, snapshot).overlay is None,
        flipped == !snap_at(v0, snapshot).mutable,
        v1 == with_snap(
            v0,
            snap_idx(v0, snapshot),
            SnapView {
                overlay: Some(snap_at(v0, snapshot).manifest),
                mutable: true,
                ..snap_at(v0, snapshot)
            },
        ),
        v2 == with_snap(
            v1,
            snap_idx(v1, snapshot),
            SnapView {
                overlay: None,
                mutable: if flipped {
                    false
                } else {
                    snap_at(v1, snapshot).mutable
                },
                ..snap_at(v1, snapshot)
            },
        ),
    ensures
        v2 == v0,
{
    let i = snap_idx(v0, snapshot);
    let s0 = snap_at(v0, snapshot);
    let s1 = SnapView { overlay: Some(s0.manifest), mutable: true, ..s0 };
    assert(0 <= i < v0.snapshots.len() && v0.snapshots[i].id == snapshot);
    lemma_wf_with_snap(v0, i, s1);
    assert(v1.snapshots[i] == s1);
    lemma_snap_idx(v1, i);
    assert(snap_idx(v1, snapshot) == i);
    assert(snap_at(v1, snapshot) == s1);
    let s2 = SnapView {
        overlay: None,
        mutable: if flipped {
            false
        } else {
            s1.mutable
        },
        ..s1
    };
    assert(s2 =~= s0);
    assert(v2.snapshots =~= v0.snapshots.update(i, s0));
    assert(v0.snapshots.update(i, s0) =~= v0.snapshots);
    assert(v2 =~= v0);
}

} // verus!
