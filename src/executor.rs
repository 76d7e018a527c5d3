//! The action executor: decides, action after action, which transfer is
//! due, and records each completed one in the baseline and the remote cache.
//! The transfers themselves are carried out by the caller.
use vstd::prelude::*;
use crate::diff::{Action, ActionKind, settle};
use crate::item::{
    ItemTree, MetaView, RemoteItem, RemoteTree, lookup, spec_parent_path, parent_path, has_id,
    bytes_eq,
};

verus! {

/// Why an action could not be carried out.
#[derive(Clone, Copy, Debug, PartialEq, Eq, Structural)]
pub enum SyncError {
    /// A local file could not be read, written or renamed.
    Io,
    /// The server could not be reached or refused the request.
    Network,
    /// The server answered something that does not fit the request.
    Protocol,
    /// A node or its parent is missing from the tree that should hold it.
    NotFound,
    /// The action has no resolution policy: both sides changed, or a
    /// timestamp went backwards.
    Conflict(ActionKind),
}

/// One unit of outside work for the caller.
pub enum Step {
    /// No transfer: only the baseline changes.
    Record,
    /// Send the local file at `path` with the size, timestamp and MIME type
    /// the scan found; `parent` is the server's identifier of its directory,
    /// `None` at the repository root.
    UploadFile { path: Vec<u8>, parent: Option<i64>, size: u64, timestamp: u64, mime_type: Vec<u8> },
    /// Create the directory `path` on the server.
    CreateRemoteDirectory { path: Vec<u8>, parent: Option<i64> },
    /// Fetch object `id` into a temporary file, rename it to `path`, and set
    /// its modification time to `timestamp`.
    DownloadFile { path: Vec<u8>, id: i64, timestamp: u64 },
    /// Create the local directory `path`.
    CreateLocalDirectory { path: Vec<u8> },
    /// Delete the local copy at `path`.
    DeleteLocal { path: Vec<u8> },
    /// Move the server's node `id` to the trash.
    TrashRemote { id: i64 },
}

/// What the caller reports after carrying out a [`Step`].
pub enum Outcome {
    Done,
    /// The server created or finalised this node.
    RemoteCreated(RemoteItem),
    Failed(SyncError),
}

/// The server's identifier for the directory that will hold `p`.
fn remote_parent(remote: &RemoteTree, path: &Vec<u8>) -> (r: Result<Option<i64>, SyncError>)
    requires
        remote.wf(),
    ensures
        spec_parent_path(path@) is None ==> r == Ok::<Option<i64>, SyncError>(None),
        spec_parent_path(path@) matches Some(pp) ==> {
            &&& r is Err <==> lookup(remote.tree@, pp) is None
            &&& r is Err ==> r == Err::<Option<i64>, SyncError>(SyncError::NotFound)
            &&& r matches Ok(Some(id)) ==> has_id(*remote, pp, id)
            &&& r is Ok ==> r->Ok_0 is Some
        },
{
    match parent_path(path) {
        None => Ok(None),
        Some(pp) => match remote.id_of(&pp) {
            Some(id) => Ok(Some(id)),
            None => Err(SyncError::NotFound),
        },
    }
}

/// The step that carries out an action of kind `kind` on `path`, given the
/// scanned tree and the remote tree as they stand now.
pub fn plan(kind: ActionKind, path: &Vec<u8>, scanned: &ItemTree, remote: &RemoteTree) -> (r: Result<Step, SyncError>)
    requires
        scanned.wf(),
        remote.wf(),
    ensures
        kind.spec_is_unresolved() ==> r == Err::<Step, SyncError>(SyncError::Conflict(kind)),
        kind == ActionKind::ResyncLocal || kind == ActionKind::RemovedOnBothSides ==> r matches Ok(Step::Record),
        kind == ActionKind::RemoteRemoved ==> (r matches Ok(Step::DeleteLocal { path: q }) && q@ == path@),
        kind == ActionKind::LocalRemoved ==> match lookup(remote.tree@, path@) {
            None => r matches Ok(Step::Record),
            Some(_) => (r matches Ok(Step::TrashRemote { id }) && has_id(*remote, path@, id)),
        },
        kind == ActionKind::LocalAdded || kind == ActionKind::LocalUpgraded ==> match lookup(scanned@, path@) {
            None => r == Err::<Step, SyncError>(SyncError::NotFound),
            Some(m) => match spec_parent_path(path@) {
                Some(pp) if lookup(remote.tree@, pp) is None => r == Err::<Step, SyncError>(SyncError::NotFound),
                pp => match r {
                    Ok(Step::UploadFile { path: q, parent, size, timestamp, mime_type }) => m.is_file && q@ == path@
                        && (parent is None <==> pp is None) && (parent matches Some(id) ==> has_id(*remote, pp->Some_0, id))
                        && size == m.size && timestamp == m.timestamp && mime_type@ == m.mime,
                    Ok(Step::CreateRemoteDirectory { path: q, parent }) => !m.is_file && q@ == path@ && (parent is None
                        <==> pp is None) && (parent matches Some(id) ==> has_id(*remote, pp->Some_0, id)),
                    _ => false,
                },
            },
        },
        kind == ActionKind::RemoteAdded || kind == ActionKind::RemoteUpgraded ==> match lookup(remote.tree@, path@) {
            None => r == Err::<Step, SyncError>(SyncError::NotFound),
            Some(m) => match r {
                Ok(Step::DownloadFile { path: q, id, timestamp }) => m.is_file && q@ == path@ && timestamp == m.timestamp
                    && has_id(*remote, path@, id),
                Ok(Step::CreateLocalDirectory { path: q }) => !m.is_file && q@ == path@,
                _ => false,
            },
        },
{
    if kind.is_unresolved() {
        return Err(SyncError::Conflict(kind));
    }
    match kind {
        ActionKind::LocalAdded | ActionKind::LocalUpgraded => {
            match scanned.find_from_path(path) {
                None => Err(SyncError::NotFound),
                Some(i) => {
                    let parent = remote_parent(remote, path)?;
                    let node = &scanned.items[i];
                    if node.is_regular_file {
                        Ok(
                            Step::UploadFile {
                                path: path.clone(),
                                parent,
                                size: node.size,
                                timestamp: node.timestamp,
                                mime_type: node.mime_type.clone(),
                            },
                        )
                    } else {
                        Ok(Step::CreateRemoteDirectory { path: path.clone(), parent })
                    }
                },
            }
        },
        ActionKind::RemoteAdded | ActionKind::RemoteUpgraded => {
            match remote.tree.find_from_path(path) {
                None => Err(SyncError::NotFound),
                Some(j) => {
                    let node = &remote.tree.items[j];
                    if node.is_regular_file {
                        Ok(Step::DownloadFile { path: path.clone(), id: remote.ids[j], timestamp: node.timestamp })
                    } else {
                        Ok(Step::CreateLocalDirectory { path: path.clone() })
                    }
                },
            }
        },
        ActionKind::LocalRemoved => {
            match remote.tree.find_from_path(path) {
                None => Ok(Step::Record),
                Some(j) => Ok(Step::TrashRemote { id: remote.ids[j] }),
            }
        },
        ActionKind::RemoteRemoved => Ok(Step::DeleteLocal { path: path.clone() }),
        _ => Ok(Step::Record),
    }
}

/// `t2` agrees with `t1` on every path but `p`.
pub open spec fn same_elsewhere(t1: Seq<MetaView>, t2: Seq<MetaView>, p: Seq<u8>) -> bool {
    forall|q: Seq<u8>| q != p ==> #[trigger] lookup(t2, q) == lookup(t1, q)
}

/// A synchronisation run: the three trees and the actions still to apply.
pub struct Session {
    pub baseline: ItemTree,
    pub scanned: ItemTree,
    pub remote: RemoteTree,
    pub actions: Vec<Action>,
    /// Index of the next action to apply.
    pub position: usize,
}

impl Session {
    pub open spec fn wf(&self) -> bool {
        self.baseline.wf() && self.scanned.wf() && self.remote.wf() && self.position <= self.actions@.len()
    }

    /// Reconciles the three trees and starts at the first action.
    pub fn start(baseline: ItemTree, scanned: ItemTree, remote: RemoteTree) -> (r: Session)
        requires
            baseline.wf(),
            scanned.wf(),
            remote.wf(),
        ensures
            r.wf(),
            r.position == 0,
            r.baseline == baseline,
            r.scanned == scanned,
            r.remote == remote,
            crate::diff::actions_view(r.actions@) == crate::diff::spec_actions(baseline@, scanned@, remote.tree@),
    {
        let actions = crate::diff::reconcile(&baseline, &scanned, &remote.tree);
        Session { baseline, scanned, remote, actions, position: 0 }
    }

    /// The next action to apply; `None` once all are applied, at once for an
    /// empty list.
    pub fn current(&self) -> (r: Option<&Action>)
        requires
            self.wf(),
        ensures
            r is None <==> self.position == self.actions@.len(),
            r matches Some(a) ==> *a == self.actions@[self.position as int],
    {
        if self.position < self.actions.len() {
            Some(&self.actions[self.position])
        } else {
            None
        }
    }

    /// Leaves the current action for a later run: a pull skips the actions
    /// that originate locally, a push those that originate remotely.
    pub fn skip(&mut self)
        requires
            old(self).wf(),
            old(self).position < old(self).actions@.len(),
        ensures
            final(self).wf(),
            final(self).position == old(self).position + 1,
            final(self).baseline == old(self).baseline,
            final(self).scanned == old(self).scanned,
            final(self).remote == old(self).remote,
            final(self).actions == old(self).actions,
    {
        let n = self.actions.len();
        assert(self.position < n);
        self.position = self.position + 1;
    }

    /// Records the outcome of the step planned for the current action. A
    /// failure stops the run where it is; a success updates the baseline at
    /// the action's path, and the remote cache where the server created a
    /// node, then moves on.
    pub fn complete(&mut self, outcome: Outcome) -> (r: Result<(), SyncError>)
        requires
            old(self).wf(),
            old(self).position < old(self).actions@.len(),
        ensures
            final(self).wf(),
            final(self).scanned == old(self).scanned,
            final(self).actions == old(self).actions,
            ({
                let a = old(self).actions@[old(self).position as int];
                let p = a.path@;
                let b0 = lookup(old(self).baseline@, p);
                let s0 = lookup(old(self).scanned@, p);
                let r0 = lookup(old(self).remote.tree@, p);
                &&& r is Err ==> final(self).position == old(self).position && final(self).baseline == old(self).baseline
                    && final(self).remote == old(self).remote
                &&& r is Ok ==> final(self).position == old(self).position + 1
                    && same_elsewhere(old(self).baseline@, final(self).baseline@, p)
                    && same_elsewhere(old(self).remote.tree@, final(self).remote.tree@, p)
                    && lookup(final(self).baseline@, p) == settle(a.kind, b0, s0, r0).0
                &&& outcome matches Outcome::Failed(e) ==> r == Err::<(), SyncError>(e)
                &&& a.kind.spec_is_unresolved() && !(outcome is Failed) ==> r == Err::<(), SyncError>(SyncError::Conflict(a.kind))
                &&& !(outcome is Failed) && !a.kind.spec_is_unresolved() ==> match a.kind {
                    ActionKind::LocalAdded | ActionKind::LocalUpgraded => match outcome {
                        Outcome::RemoteCreated(item) => if s0 is Some && item.node@.path == p {
                            r is Ok && lookup(final(self).remote.tree@, p) == Some(item.node@)
                                && has_id(final(self).remote, p, item.id)
                        } else {
                            r == Err::<(), SyncError>(if s0 is None { SyncError::NotFound } else { SyncError::Protocol })
                        },
                        _ => r == Err::<(), SyncError>(SyncError::Protocol),
                    },
                    ActionKind::RemoteAdded | ActionKind::RemoteUpgraded => if r0 is Some {
                        r is Ok && final(self).remote == old(self).remote
                    } else {
                        r == Err::<(), SyncError>(SyncError::NotFound)
                    },
                    ActionKind::LocalRemoved => r is Ok && lookup(final(self).remote.tree@, p) is None,
                    _ => r is Ok && final(self).remote == old(self).remote,
                }
            }),
    {
        let n = self.actions.len();
        assert(self.position < n);
        let a = &self.actions[self.position];
        let kind = a.kind;
        if let Outcome::Failed(e) = outcome {
            return Err(e);
        }
        if kind.is_unresolved() {
            return Err(SyncError::Conflict(kind));
        }
        match kind {
            ActionKind::LocalAdded | ActionKind::LocalUpgraded => {
                let si = match self.scanned.find_from_path(&a.path) {
                    Some(i) => i,
                    None => {
                        return match outcome {
                            Outcome::RemoteCreated(_) => Err(SyncError::NotFound),
                            _ => Err(SyncError::Protocol),
                        };
                    },
                };
                match outcome {
                    Outcome::RemoteCreated(item) => {
                        if !bytes_eq(&item.node.path, &a.path) {
                            return Err(SyncError::Protocol);
                        }
                        let node = self.scanned.items[si].clone();
                        self.baseline.upsert(node);
                        self.remote.add_item(item);
                    },
                    _ => {
                        return Err(SyncError::Protocol);
                    },
                }
            },
            ActionKind::RemoteAdded | ActionKind::RemoteUpgraded => {
                match self.remote.tree.find_from_path(&a.path) {
                    Some(j) => {
                        let node = self.remote.tree.items[j].clone();
                        self.baseline.upsert(node);
                    },
                    None => {
                        return Err(SyncError::NotFound);
                    },
                }
            },
            ActionKind::ResyncLocal => {
                match self.scanned.find_from_path(&a.path) {
                    Some(i) => {
                        let node = self.scanned.items[i].clone();
                        self.baseline.upsert(node);
                    },
                    None => {
                        self.baseline.remove_path(&a.path);
                    },
                }
            },
            ActionKind::LocalRemoved => {
                self.remote.remove_path(&a.path);
                self.baseline.remove_path(&a.path);
            },
            _ => {
                self.baseline.remove_path(&a.path);
            },
        }
        self.position = self.position + 1;
        Ok(())
    }
}

/// Where a file download stands. Bytes go to a temporary file first; the
/// destination is only ever written by renaming that file into place.
#[derive(Clone, Copy, Debug, PartialEq, Eq, Structural)]
pub enum DownloadStage {
    Fetching,
    Renaming,
    Stamping,
    Finished,
    Aborted,
}

/// The file operation the caller performs next.
#[derive(Clone, Copy, Debug, PartialEq, Eq, Structural)]
pub enum FileOp {
    /// Rename the complete temporary file to the destination.
    RenameIntoPlace,
    /// Set the destination's modification time, in milliseconds.
    SetModified(u64),
    /// Delete the temporary file; the destination was not touched.
    RemoveTemporary,
    /// Nothing more to do.
    Stop,
}

pub open spec fn spec_advance(stage: DownloadStage, ok: bool, timestamp: u64) -> (DownloadStage, FileOp) {
    match stage {
        DownloadStage::Fetching => if ok {
            (DownloadStage::Renaming, FileOp::RenameIntoPlace)
        } else {
            (DownloadStage::Aborted, FileOp::RemoveTemporary)
        },
        DownloadStage::Renaming => if ok {
            (DownloadStage::Stamping, FileOp::SetModified(timestamp))
        } else {
            (DownloadStage::Aborted, FileOp::RemoveTemporary)
        },
        DownloadStage::Stamping => if ok {
            (DownloadStage::Finished, FileOp::Stop)
        } else {
            (DownloadStage::Aborted, FileOp::Stop)
        },
        _ => (stage, FileOp::Stop),
    }
}

/// A download of one file whose remote timestamp is `timestamp`.
pub struct Download {
    pub stage: DownloadStage,
    pub timestamp: u64,
}

impl Download {
    pub fn new(timestamp: u64) -> (r: Download)
        ensures
            r.stage == DownloadStage::Fetching,
            r.timestamp == timestamp,
    {
        Download { stage: DownloadStage::Fetching, timestamp }
    }

    /// Moves on after the current operation succeeded (`ok`) or failed.
    pub fn advance(&mut self, ok: bool) -> (op: FileOp)
        ensures
            final(self).timestamp == old(self).timestamp,
            (final(self).stage, op) == spec_advance(old(self).stage, ok, old(self).timestamp),
    {
        let (stage, op) = match self.stage {
            DownloadStage::Fetching => if ok {
                (DownloadStage::Renaming, FileOp::RenameIntoPlace)
            } else {
                (DownloadStage::Aborted, FileOp::RemoveTemporary)
            },
            DownloadStage::Renaming => if ok {
                (DownloadStage::Stamping, FileOp::SetModified(self.timestamp))
            } else {
                (DownloadStage::Aborted, FileOp::RemoveTemporary)
            },
            DownloadStage::Stamping => if ok {
                (DownloadStage::Finished, FileOp::Stop)
            } else {
                (DownloadStage::Aborted, FileOp::Stop)
            },
            other => (other, FileOp::Stop),
        };
        self.stage = stage;
        op
    }
}

/// The stage reached and the operations emitted for the outcomes `events`.
pub open spec fn run_download(events: Seq<bool>, timestamp: u64) -> (DownloadStage, Seq<FileOp>)
    decreases events.len(),
{
    if events.len() == 0 {
        (DownloadStage::Fetching, Seq::empty())
    } else {
        let (stage, ops) = run_download(events.drop_last(), timestamp);
        let (next, op) = spec_advance(stage, events.last(), timestamp);
        (next, ops.push(op))
    }
}

/// Whatever the outcomes, the destination is written by one rename of the
/// temporary file and only once the fetch completed; an interrupted fetch
/// removes the temporary file and never renames it; and a finished download
/// has stamped the destination with the remote timestamp.
pub proof fn lemma_download(events: Seq<bool>, timestamp: u64)
    ensures
        ({
            let (stage, ops) = run_download(events, timestamp);
            &&& forall|i: int| 0 <= i < ops.len() && ops[i] == FileOp::RenameIntoPlace ==> i == 0 && events[0]
            &&& events.len() > 0 && !events[0] ==> ops[0] == FileOp::RemoveTemporary && stage == DownloadStage::Aborted
            &&& stage == DownloadStage::Finished ==> ops.len() >= 2 && ops[1] == FileOp::SetModified(timestamp)
            &&& stage == DownloadStage::Stamping ==> ops.len() == 2 && ops[1] == FileOp::SetModified(timestamp)
            &&& stage == DownloadStage::Renaming ==> ops.len() == 1 && events[0]
            &&& ops.len() == events.len()
            &&& events.len() > 0 ==> (stage == DownloadStage::Fetching ==> false)
            &&& stage == DownloadStage::Stamping || stage == DownloadStage::Finished ==> events[0] && events[1]
        }),
    decreases events.len(),
{
    if events.len() > 0 {
        let prev = events.drop_last();
        lemma_download(prev, timestamp);
        let (stage, ops) = run_download(prev, timestamp);
        let (s2, ops2) = run_download(events, timestamp);
        assert(ops2 == ops.push(spec_advance(stage, events.last(), timestamp).1));
        if prev.len() > 0 {
            assert(prev[0] == events[0]);
        }
        if prev.len() > 1 {
            assert(prev[1] == events[1]);
        }
        if events.len() == 1 {
            assert(events.last() == events[0]);
        }
        if events.len() == 2 {
            assert(events.last() == events[1]);
        }
        assert forall|i: int| 0 <= i < ops2.len() && ops2[i] == FileOp::RenameIntoPlace implies i == 0 && events[0] by {
            if i < ops.len() {
                assert(ops2[i] == ops[i]);
            }
        }
        if s2 == DownloadStage::Finished {
            assert(ops2[1] == ops[1]);
        }
        if events.len() > 1 {
            assert(ops2[0] == ops[0]);
        }
    }
}

} // verus!
