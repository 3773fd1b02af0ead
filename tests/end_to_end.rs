use minigit::author::Author;
use minigit::blob::Blob;
use minigit::commit::Commit;
use minigit::database::Database;
use minigit::entry::Entry;
use minigit::lockfile::OpenOutcome;
use minigit::object::{Kind, Object};
use minigit::refs::Refs;
use minigit::tree::Tree;
use minigit::utils::u8_to_hex_str;

fn root_commit() -> (String, Vec<Vec<u8>>) {
    let db = Database::new("repo/.git/objects".to_string());
    let mut written = Vec::new();
    let mut entries = Vec::new();
    for (name, content) in [("b.txt", "world"), ("a.txt", "hello")] {
        let mut blob = Blob::new(content.as_bytes());
        written.push(db.store(&mut blob).data);
        entries.push(Entry::new(name.to_string(), name.to_string(), &blob.object_id, false));
    }
    let mut tree = Tree::build(entries).unwrap();
    for w in tree.store_tree(&db) {
        written.push(w.data);
    }
    let author = Author::new(
        "T".to_string(),
        "t@example.com".to_string(),
        "1700000000 +0000".to_string(),
    );
    let mut commit = Commit::new(String::new(), tree.get_object_id(), author, "initial\n".to_string());
    let stored = db.store(&mut commit);
    written.push(stored.data);
    (u8_to_hex_str(&commit.object_id), written)
}

#[test]
fn root_commit_identifier_is_reproducible() {
    let (first, _) = root_commit();
    let (second, _) = root_commit();
    assert_eq!(first, "a5298cc8ada9ebf601084af6ba78b09fe182880f");
    assert_eq!(first, second);
}

#[test]
fn head_reads_back_after_update() {
    let (id, written) = root_commit();
    let db = Database::new("repo/.git/objects".to_string());
    let (kind, _) = db.load(Some(written.last().unwrap().clone())).unwrap();
    assert_eq!(kind, Kind::Commit);
    let refs = Refs::new("repo/.git".to_string());
    let lock = refs.update_head(&id, OpenOutcome::Created).unwrap();
    let text = String::from_utf8(lock.contents).unwrap();
    assert_eq!(refs.read_head(Some(&text)), id);
}

#[test]
fn commit_with_parent_bytes() {
    let author = Author::new("A".to_string(), "a@b".to_string(), "1 +0000".to_string());
    let commit = Commit::new("ff".to_string(), vec![0xab], author, "m".to_string());
    assert_eq!(
        commit.to_bytes(),
        b"commit 64\0tree ab\nparent ff\nauthor A a@b 1 +0000\ncommitter A a@b 1 +0000\nm".to_vec()
    );
}
