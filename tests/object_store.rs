use minigit::blob::Blob;
use minigit::database::Database;
use minigit::object::{parse_record, record, DatabaseError, Kind, Object};
use minigit::utils::{
    get_db_path, get_git_path, hash_content, hash_to_path, inflate, join_path,
    push_decimal, u8_to_hex_str,
};

fn unhex(s: &str) -> Vec<u8> {
    (0..s.len() / 2).map(|i| u8::from_str_radix(&s[2 * i..2 * i + 2], 16).unwrap()).collect()
}

#[test]
fn hex_display_form_is_lowercase_two_digits_per_byte() {
    assert_eq!(u8_to_hex_str(&vec![0x00, 0xab, 0x10, 0xff]), "00ab10ff");
    assert_eq!(u8_to_hex_str(&vec![]), "");
}

#[test]
fn decimal_lengths() {
    let mut out = Vec::new();
    push_decimal(&mut out, 0);
    assert_eq!(out, b"0".to_vec());
    let mut out = b"x".to_vec();
    push_decimal(&mut out, 1203);
    assert_eq!(out, b"x1203".to_vec());
}

#[test]
fn path_helpers() {
    assert_eq!(hash_to_path("b6fc4c62"), ("b6", "fc4c62"));
    assert_eq!(join_path("/repo", "HEAD"), "/repo/HEAD");
    assert_eq!(get_git_path("/w"), "/w/.git");
    assert_eq!(get_db_path("/w"), "/w/.git/objects");
}

#[test]
fn record_format_per_kind() {
    assert_eq!(record(Kind::Blob, b"hello"), b"blob 5\0hello".to_vec());
    assert_eq!(record(Kind::Tree, b""), b"tree 0\0".to_vec());
    assert_eq!(record(Kind::Commit, b"0123456789"), b"commit 10\x000123456789".to_vec());
}

#[test]
fn parse_record_round_trip() {
    assert_eq!(parse_record(b"blob 5\0hello"), Ok((Kind::Blob, b"hello".to_vec())));
    assert_eq!(parse_record(b"tree 0\0"), Ok((Kind::Tree, vec![])));
    assert_eq!(parse_record(b"commit 3\0a\0b"), Ok((Kind::Commit, b"a\0b".to_vec())));
}

#[test]
fn parse_record_rejects_malformed_bytes() {
    let corrupt = Err(DatabaseError::CorruptObject);
    assert_eq!(parse_record(b"blob5\0hello"), corrupt);
    assert_eq!(parse_record(b"blub 5\0hello"), corrupt);
    assert_eq!(parse_record(b"blob 5hello"), corrupt);
    assert_eq!(parse_record(b"blob 4\0hello"), corrupt);
    assert_eq!(parse_record(b"blob 05\0hello"), corrupt);
    assert_eq!(parse_record(b""), corrupt);
}

#[test]
fn sha1_of_blob_record() {
    assert_eq!(
        hash_content(b"blob 5\0hello"),
        unhex("b6fc4c620b67d95f953a5c1c1230aaab5db5a1b0")
    );
}

#[test]
fn compression_round_trips() {
    let db = Database::new("objects".to_string());
    let data = b"blob 11\0hello world".to_vec();
    let (dir, file, packed) = db.write_object("0123abcd", &data);
    assert_eq!(dir, "objects/01");
    assert_eq!(file, "objects/01/23abcd");
    assert_ne!(packed, data);
    assert_eq!(inflate(&packed), Some(data));
    assert_eq!(inflate(b"not zlib at all"), None);
}

#[test]
fn store_blob_assigns_digest_and_location() {
    let db = Database::new("/r/.git/objects".to_string());
    let mut blob = Blob::new(b"hello");
    let stored = db.store(&mut blob);
    let id = unhex("b6fc4c620b67d95f953a5c1c1230aaab5db5a1b0");
    assert_eq!(stored.object_id, id);
    assert_eq!(blob.get_object_id(), id);
    assert_eq!(stored.dir, "/r/.git/objects/b6");
    assert_eq!(stored.file, "/r/.git/objects/b6/fc4c620b67d95f953a5c1c1230aaab5db5a1b0");
    assert_eq!(inflate(&stored.data), Some(b"blob 5\0hello".to_vec()));
}

#[test]
fn store_is_deterministic() {
    let db = Database::new("objects".to_string());
    let mut first = Blob::new(b"same content");
    let mut second = Blob::new(b"same content");
    second.set_object_id(vec![1, 2, 3]);
    let a = db.store(&mut first);
    let b = db.store(&mut second);
    assert_eq!(a.object_id, b.object_id);
    assert_eq!(a.file, b.file);
    assert_eq!(a.data, b.data);
    let again = db.store(&mut first);
    assert_eq!(again.object_id, a.object_id);
    assert_eq!(again.data, a.data);
}

#[test]
fn load_returns_stored_content() {
    let db = Database::new("objects".to_string());
    let content = b"line one\nline two\n\0binary".to_vec();
    let mut blob = Blob::new(&content);
    let stored = db.store(&mut blob);
    assert_eq!(db.load(Some(stored.data)), Ok((Kind::Blob, content)));
    let mut empty = Blob::new(b"");
    let stored = db.store(&mut empty);
    assert_eq!(db.load(Some(stored.data)), Ok((Kind::Blob, vec![])));
}

#[test]
fn load_errors() {
    let db = Database::new("objects".to_string());
    assert_eq!(db.load(None), Err(DatabaseError::ObjectNotFound));
    assert_eq!(db.load(Some(b"garbage".to_vec())), Err(DatabaseError::CorruptObject));
    let (_, _, not_a_record) = db.write_object("00ff", b"hello");
    assert_eq!(db.load(Some(not_a_record)), Err(DatabaseError::CorruptObject));
}

#[test]
fn existing_object_files_are_not_rewritten() {
    let db = Database::new("objects".to_string());
    let mut blob = Blob::new(b"hello");
    let stored = db.store(&mut blob);
    assert!(db.pending_write(stored, true).is_none());
    let again = db.store(&mut blob);
    let file = again.file.clone();
    assert_eq!(db.pending_write(again, false).map(|s| s.file), Some(file));
}
