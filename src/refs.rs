//! The head reference: the display form of the latest commit, updated
//! through the lock protocol.
use vstd::prelude::*;
use vstd::string::*;
use crate::lockfile::{LockFile, LockState, LockfileError, OpenOutcome};
use crate::object::utf8;
use crate::utils::{hex_char, hex_of, join_path, joined};

verus! {

/// Failures of the ref store.
#[derive(Debug, Clone, Copy, PartialEq, Eq, Structural)]
pub enum RefsError {
    /// Another writer holds the lock on the head.
    LockDenied,
    /// Taking the lock failed for the given reason.
    Lock(LockfileError),
}

/// The refs directory, holding the head file.
#[derive(Debug)]
pub struct Refs {
    pub pathname: String,
}

/// A text without its trailing newlines.
pub open spec fn trim_newlines(s: Seq<char>) -> Seq<char>
    decreases s.len(),
{
    if s.len() > 0 && s.last() == '\n' {
        trim_newlines(s.drop_last())
    } else {
        s
    }
}

/// What the head holds, given the head file's text, or `None` where there
/// is no head file: empty before the first commit.
pub open spec fn head_of(contents: Option<Seq<char>>) -> Seq<char> {
    match contents {
        Some(c) => trim_newlines(c),
        None => Seq::empty(),
    }
}

/// The head file's text after an update is read back as the display form
/// that was written.
pub proof fn lemma_head_round_trip(id: Seq<u8>)
    ensures
        head_of(Some(hex_of(id) + "\n"@)) == hex_of(id),
{
    reveal_strlit("\n");
    let h = hex_of(id);
    assert("\n"@ =~= seq!['\n']);
    assert((h + "\n"@).drop_last() =~= h);
    assert((h + "\n"@).last() == '\n');
    if id.len() > 0 {
        let b = id.last();
        assert(h.last() == hex_char(b % 16));
        assert(hex_char(b % 16) != '\n');
    }
    assert(trim_newlines(h) == h);
}

impl Refs {
    pub fn new(pathname: String) -> (r: Refs)
        ensures
            r.pathname@ == pathname@,
    {
        Refs { pathname }
    }

    /// The head file.
    pub fn head_path(&self) -> (r: String)
        ensures
            r@ == joined(self.pathname@, "HEAD"@),
    {
        join_path(self.pathname.as_str(), "HEAD")
    }

    /// The display form of the latest commit, given the head file's text
    /// (`None` where the file does not exist); empty before the first commit.
    pub fn read_head(&self, contents: Option<&str>) -> (r: String)
        ensures
            r@ == head_of(
                match contents {
                    Some(c) => Some(c@),
                    None => None,
                },
            ),
    {
        match contents {
            None => String::new(),
            Some(c) => {
                let mut end = c.unicode_len();
                assert(c@.subrange(0, end as int) =~= c@);
                while end > 0 && c.get_char(end - 1) == '\n'
                    invariant
                        end <= c@.len(),
                        trim_newlines(c@.subrange(0, end as int)) == trim_newlines(c@),
                    decreases end,
                {
                    assert(c@.subrange(0, end as int).drop_last() =~= c@.subrange(0, end - 1));
                    end = end - 1;
                }
                String::from_str(c.substring_char(0, end))
            },
        }
    }

    /// Moves the head to `commit_hex_str`, given what the exclusive creation
    /// of the lock marker gave. On success the returned lock is committed and
    /// holds the display form and a newline, to be published onto the head
    /// file; another holder gives `LockDenied`.
    pub fn update_head(&self, commit_hex_str: &str, outcome: OpenOutcome) -> (r: Result<
        LockFile,
        RefsError,
    >)
        ensures
            match outcome {
                OpenOutcome::Created => r matches Ok(l) && l.state == LockState::Committed
                    && l.contents@ == utf8(commit_hex_str@) + utf8("\n"@) && l.file_path@ == joined(
                    self.pathname@,
                    "HEAD"@,
                ) && l.lock_path@ == joined(self.pathname@, "HEAD.lock"@),
                OpenOutcome::AlreadyExists => r matches Err(RefsError::LockDenied),
                OpenOutcome::NotFound => r matches Err(RefsError::Lock(LockfileError::MissingParent)),
                OpenOutcome::PermissionDenied => r matches Err(
                    RefsError::Lock(LockfileError::NoPermission),
                ),
                OpenOutcome::Failed => r matches Err(RefsError::Lock(LockfileError::UnknownError)),
            },
    {
        let mut lock = LockFile::new(self.pathname.as_str());
        match lock.hold_for_update(outcome) {
            Ok(true) => {
                let _ = lock.write(commit_hex_str);
                let _ = lock.write("\n");
                let _ = lock.commit();
                assert(lock.contents@ =~= utf8(commit_hex_str@) + utf8("\n"@));
                Ok(lock)
            },
            Ok(false) => Err(RefsError::LockDenied),
            Err(e) => Err(RefsError::Lock(e)),
        }
    }
}

} // verus!
