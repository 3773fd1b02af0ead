use minigit::database::Database;
use minigit::entry::{sort_entries, Entry};
use minigit::object::Object;
use minigit::tree::{EntryOrTree, Tree, TreeError};
use minigit::utils::{hash_content, u8_to_hex_str};

fn blob_id(content: &[u8]) -> Vec<u8> {
    let mut rec = format!("blob {}\0", content.len()).into_bytes();
    rec.extend_from_slice(content);
    hash_content(&rec)
}

fn entry(path: &str, id: &[u8]) -> Entry {
    let name = path.rsplit('/').next().unwrap().to_string();
    Entry::new(name, path.to_string(), id, false)
}

fn three(order: &[usize]) -> Vec<Entry> {
    let all = [("a/b.txt", blob_id(b"one")), ("a/c.txt", blob_id(b"two")), ("d.txt", blob_id(b"three"))];
    order.iter().map(|&i| entry(all[i].0, &all[i].1)).collect()
}

#[test]
fn entry_mode_and_ancestors() {
    let e = Entry::new("c.txt".to_string(), "a/b/c.txt".to_string(), &[1, 2], true);
    assert_eq!(e.mode(), "100755");
    assert_eq!(e.ancestor_directories(), vec![b"a".to_vec(), b"b".to_vec()]);
    let f = Entry::new("top".to_string(), "top".to_string(), &[3], false);
    assert_eq!(f.mode(), "100644");
    assert!(f.ancestor_directories().is_empty());
}

#[test]
fn sort_orders_by_path() {
    let sorted = sort_entries(three(&[2, 1, 0]));
    let paths: Vec<&str> = sorted.iter().map(|e| e.path.as_str()).collect();
    assert_eq!(paths, vec!["a/b.txt", "a/c.txt", "d.txt"]);
}

#[test]
fn build_nests_directories() {
    let tree = Tree::build(three(&[0, 1, 2])).unwrap();
    assert_eq!(tree.nodes.len(), 2);
    let root: Vec<Vec<u8>> = tree.nodes[0].entries.iter().map(|i| i.name.clone()).collect();
    assert_eq!(root, vec![b"a".to_vec(), b"d.txt".to_vec()]);
    assert!(matches!(tree.nodes[0].entries[0].child, EntryOrTree::Tree(1)));
    let sub: Vec<Vec<u8>> = tree.nodes[1].entries.iter().map(|i| i.name.clone()).collect();
    assert_eq!(sub, vec![b"b.txt".to_vec(), b"c.txt".to_vec()]);
}

#[test]
fn tree_identifiers_are_order_independent() {
    let db = Database::new("objects".to_string());
    let mut results = Vec::new();
    for order in [[0, 1, 2], [2, 1, 0], [1, 2, 0]] {
        let mut tree = Tree::build(three(&order)).unwrap();
        let writes = tree.store_tree(&db);
        assert_eq!(writes.len(), 2);
        results.push((
            u8_to_hex_str(&writes[0].object_id),
            u8_to_hex_str(&writes[1].object_id),
            tree.to_bytes(),
        ));
    }
    assert_eq!(results[0].0, "531341317aa47a26055d8e8b27a37bba47a9b749");
    assert_eq!(results[0].1, "31861ca8ca5e622b311027d17f8558a76f658119");
    assert_eq!(results[0], results[1]);
    assert_eq!(results[0], results[2]);
}

#[test]
fn subtree_canonical_bytes() {
    let db = Database::new("objects".to_string());
    let mut tree = Tree::build(three(&[0, 1, 2])).unwrap();
    tree.store_tree(&db);
    let mut expected = b"100644 b.txt\0".to_vec();
    expected.extend(blob_id(b"one"));
    expected.extend(b"100644 c.txt\0");
    expected.extend(blob_id(b"two"));
    assert_eq!(tree.node_payload(1), expected);
    assert_eq!(
        u8_to_hex_str(&tree.get_object_id()),
        "31861ca8ca5e622b311027d17f8558a76f658119"
    );
}

#[test]
fn file_and_directory_with_one_name_conflict() {
    let h1 = blob_id(b"one");
    let h2 = blob_id(b"two");
    let forward = vec![entry("x", &h1), entry("x/y.txt", &h2)];
    assert_eq!(Tree::build(forward).err(), Some(TreeError::ConflictingEntry));
    let backward = vec![entry("x/y.txt", &h2), entry("x", &h1)];
    assert_eq!(Tree::build(backward).err(), Some(TreeError::ConflictingEntry));
}

#[test]
fn two_files_with_one_path_conflict() {
    let h1 = blob_id(b"one");
    let h2 = blob_id(b"two");
    let entries = vec![entry("a/f", &h1), entry("a/f", &h2)];
    assert_eq!(Tree::build(entries).err(), Some(TreeError::ConflictingEntry));
}

#[test]
fn empty_tree() {
    let db = Database::new("objects".to_string());
    let mut tree = Tree::build(vec![]).unwrap();
    let writes = tree.store_tree(&db);
    assert_eq!(writes.len(), 1);
    assert_eq!(tree.to_bytes(), b"tree 0\0".to_vec());
    assert_eq!(
        u8_to_hex_str(&writes[0].object_id),
        "4b825dc642cb6eb9a060e54bf8d69288fbee4904"
    );
}

#[test]
fn add_entry_creates_missing_directories() {
    let mut tree = Tree::new();
    let e = Entry::new("z".to_string(), "p/q/z".to_string(), &[7], false);
    let parents = e.ancestor_directories();
    assert_eq!(tree.add_entry(parents, e), Ok(()));
    assert_eq!(tree.nodes.len(), 3);
    assert_eq!(tree.nodes[2].entries[0].name, b"z".to_vec());
}
