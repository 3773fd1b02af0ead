//! A single-writer lock over one file: a marker file beside the target is
//! created exclusively, written, and renamed onto the target to publish.
use vstd::prelude::*;
use crate::object::{push_str, utf8};
use crate::utils::{join_path, joined};

verus! {

/// Failures of the lock protocol.
#[derive(Debug, Clone, Copy, PartialEq, Eq, Structural)]
pub enum LockfileError {
    /// The directory of the target does not exist.
    MissingParent,
    /// The file system refused access.
    NoPermission,
    /// A write or commit without the lock held.
    StaleLock,
    /// Creating the marker failed for another reason.
    UnknownError,
}

/// Where a lock instance stands.
#[derive(Debug, Clone, Copy, PartialEq, Eq, Structural)]
pub enum LockState {
    Unlocked,
    Held,
    Committed,
}

/// What happened on the attempt to create the marker file exclusively.
#[derive(Debug, Clone, Copy, PartialEq, Eq, Structural)]
pub enum OpenOutcome {
    Created,
    AlreadyExists,
    NotFound,
    PermissionDenied,
    Failed,
}

/// A lock over `file_path`, with marker `lock_path`. `contents` is what has
/// been written to the marker while held.
#[derive(Debug)]
pub struct LockFile {
    pub file_path: String,
    pub lock_path: String,
    pub state: LockState,
    pub contents: Vec<u8>,
}

impl LockFile {
    /// An unlocked instance for the head file in `path`.
    pub fn new(path: &str) -> (r: LockFile)
        ensures
            r.file_path@ == joined(path@, "HEAD"@),
            r.lock_path@ == joined(path@, "HEAD.lock"@),
            r.state == LockState::Unlocked,
            r.contents@.len() == 0,
    {
        LockFile {
            file_path: join_path(path, "HEAD"),
            lock_path: join_path(path, "HEAD.lock"),
            state: LockState::Unlocked,
            contents: Vec::new(),
        }
    }

    /// Takes the lock, given what the exclusive creation of the marker
    /// gave. An instance that already holds the lock keeps it, whatever the
    /// outcome; a committed one is done.
    pub fn hold_for_update(&mut self, outcome: OpenOutcome) -> (r: Result<bool, LockfileError>)
        ensures
            final(self).file_path == old(self).file_path,
            final(self).lock_path == old(self).lock_path,
            final(self).contents == old(self).contents,
            old(self).state == LockState::Held ==> r == Ok::<bool, LockfileError>(true)
                && final(self).state == LockState::Held,
            old(self).state == LockState::Committed ==> r == Err::<bool, LockfileError>(
                LockfileError::StaleLock,
            ) && final(self).state == LockState::Committed,
            old(self).state == LockState::Unlocked ==> match outcome {
                OpenOutcome::Created => r == Ok::<bool, LockfileError>(true) && final(self).state
                    == LockState::Held,
                OpenOutcome::AlreadyExists => r == Ok::<bool, LockfileError>(false)
                    && final(self).state == LockState::Unlocked,
                OpenOutcome::NotFound => r == Err::<bool, LockfileError>(
                    LockfileError::MissingParent,
                ) && final(self).state == LockState::Unlocked,
                OpenOutcome::PermissionDenied => r == Err::<bool, LockfileError>(
                    LockfileError::NoPermission,
                ) && final(self).state == LockState::Unlocked,
                OpenOutcome::Failed => r == Err::<bool, LockfileError>(
                    LockfileError::UnknownError,
                ) && final(self).state == LockState::Unlocked,
            },
    {
        match self.state {
            LockState::Held => Ok(true),
            LockState::Committed => Err(LockfileError::StaleLock),
            LockState::Unlocked => match outcome {
                OpenOutcome::Created => {
                    self.state = LockState::Held;
                    Ok(true)
                },
                OpenOutcome::AlreadyExists => Ok(false),
                OpenOutcome::NotFound => Err(LockfileError::MissingParent),
                OpenOutcome::PermissionDenied => Err(LockfileError::NoPermission),
                OpenOutcome::Failed => Err(LockfileError::UnknownError),
            },
        }
    }

    /// `StaleLock` unless the lock is held.
    pub fn raise_on_stale_lock(&self) -> (r: Result<(), LockfileError>)
        ensures
            r == (if self.state == LockState::Held {
                Ok::<(), LockfileError>(())
            } else {
                Err(LockfileError::StaleLock)
            }),
    {
        match self.state {
            LockState::Held => Ok(()),
            _ => Err(LockfileError::StaleLock),
        }
    }

    /// Appends `s` to the marker; `StaleLock`, with nothing written, unless
    /// the lock is held.
    pub fn write(&mut self, s: &str) -> (r: Result<(), LockfileError>)
        ensures
            final(self).file_path == old(self).file_path,
            final(self).lock_path == old(self).lock_path,
            final(self).state == old(self).state,
            old(self).state == LockState::Held ==> r == Ok::<(), LockfileError>(())
                && final(self).contents@ == old(self).contents@ + utf8(s@),
            old(self).state != LockState::Held ==> r == Err::<(), LockfileError>(
                LockfileError::StaleLock,
            ) && final(self).contents == old(self).contents,
    {
        self.raise_on_stale_lock()?;
        push_str(&mut self.contents, s);
        Ok(())
    }

    /// Publishes the marker onto the target and releases the lock;
    /// `StaleLock`, with nothing changed, unless the lock is held.
    pub fn commit(&mut self) -> (r: Result<(), LockfileError>)
        ensures
            final(self).file_path == old(self).file_path,
            final(self).lock_path == old(self).lock_path,
            final(self).contents == old(self).contents,
            old(self).state == LockState::Held ==> r == Ok::<(), LockfileError>(())
                && final(self).state == LockState::Committed,
            old(self).state != LockState::Held ==> r == Err::<(), LockfileError>(
                LockfileError::StaleLock,
            ) && final(self).state == old(self).state,
    {
        self.raise_on_stale_lock()?;
        self.state = LockState::Committed;
        Ok(())
    }
}

} // verus!
