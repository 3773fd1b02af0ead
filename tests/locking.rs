use minigit::lockfile::{LockFile, LockState, LockfileError, OpenOutcome};
use minigit::refs::{Refs, RefsError};
use minigit::workspace::Workspace;

#[test]
fn lock_paths() {
    let lock = LockFile::new("/repo/.git");
    assert_eq!(lock.file_path, "/repo/.git/HEAD");
    assert_eq!(lock.lock_path, "/repo/.git/HEAD.lock");
    assert_eq!(lock.state, LockState::Unlocked);
}

#[test]
fn second_holder_is_refused() {
    let mut first = LockFile::new("/repo/.git");
    let mut second = LockFile::new("/repo/.git");
    assert_eq!(first.hold_for_update(OpenOutcome::Created), Ok(true));
    assert_eq!(second.hold_for_update(OpenOutcome::AlreadyExists), Ok(false));
    assert_eq!(second.state, LockState::Unlocked);
    assert_eq!(second.write("x"), Err(LockfileError::StaleLock));
    assert_eq!(first.hold_for_update(OpenOutcome::AlreadyExists), Ok(true));
}

#[test]
fn acquire_errors() {
    let mut lock = LockFile::new("/missing");
    assert_eq!(lock.hold_for_update(OpenOutcome::NotFound), Err(LockfileError::MissingParent));
    assert_eq!(
        lock.hold_for_update(OpenOutcome::PermissionDenied),
        Err(LockfileError::NoPermission)
    );
    assert_eq!(lock.hold_for_update(OpenOutcome::Failed), Err(LockfileError::UnknownError));
    assert_eq!(lock.state, LockState::Unlocked);
}

#[test]
fn write_and_commit_need_the_lock() {
    let mut lock = LockFile::new("r");
    assert_eq!(lock.write("abc"), Err(LockfileError::StaleLock));
    assert_eq!(lock.commit(), Err(LockfileError::StaleLock));
    assert_eq!(lock.raise_on_stale_lock(), Err(LockfileError::StaleLock));
    assert_eq!(lock.hold_for_update(OpenOutcome::Created), Ok(true));
    assert_eq!(lock.raise_on_stale_lock(), Ok(()));
    assert_eq!(lock.write("abc"), Ok(()));
    assert_eq!(lock.write("\n"), Ok(()));
    assert_eq!(lock.contents, b"abc\n".to_vec());
    assert_eq!(lock.commit(), Ok(()));
    assert_eq!(lock.state, LockState::Committed);
    assert_eq!(lock.write("more"), Err(LockfileError::StaleLock));
    assert_eq!(lock.commit(), Err(LockfileError::StaleLock));
    assert_eq!(lock.hold_for_update(OpenOutcome::Created), Err(LockfileError::StaleLock));
    assert_eq!(lock.contents, b"abc\n".to_vec());
}

#[test]
fn read_head_trims_newlines() {
    let refs = Refs::new("/repo/.git".to_string());
    assert_eq!(refs.head_path(), "/repo/.git/HEAD");
    assert_eq!(refs.read_head(None), "");
    assert_eq!(refs.read_head(Some("")), "");
    assert_eq!(refs.read_head(Some("abc123\n")), "abc123");
    assert_eq!(refs.read_head(Some("abc123\n\n")), "abc123");
    assert_eq!(refs.read_head(Some("abc123")), "abc123");
}

#[test]
fn update_head_outcomes() {
    let refs = Refs::new("g".to_string());
    let lock = refs.update_head("a5298cc8", OpenOutcome::Created).unwrap();
    assert_eq!(lock.state, LockState::Committed);
    assert_eq!(lock.contents, b"a5298cc8\n".to_vec());
    assert_eq!(lock.lock_path, "g/HEAD.lock");
    assert_eq!(lock.file_path, "g/HEAD");
    assert_eq!(refs.update_head("a5", OpenOutcome::AlreadyExists).err(), Some(RefsError::LockDenied));
    assert_eq!(
        refs.update_head("a5", OpenOutcome::NotFound).err(),
        Some(RefsError::Lock(LockfileError::MissingParent))
    );
    assert_eq!(
        refs.update_head("a5", OpenOutcome::PermissionDenied).err(),
        Some(RefsError::Lock(LockfileError::NoPermission))
    );
}

#[test]
fn workspace_ignores() {
    let ws = Workspace::new("/w".to_string());
    assert!(ws.is_ignored(".git"));
    assert!(ws.is_ignored("target"));
    assert!(!ws.is_ignored("main.rs"));
    assert!(!ws.is_ignored(".gitx"));
}
