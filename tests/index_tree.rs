use nyx::index::{Index, NyxFileState};
use nyx::object_type::NyxObjectType;
use nyx::store::ObjectStore;
use nyx::tree::{parse_tree_listing, Tree};

fn entries(index: &Index) -> Vec<(String, String, NyxFileState)> {
    (0..index.len())
        .map(|i| {
            let e = index.entry(i);
            (e.hash.clone(), e.path.clone(), e.state)
        })
        .collect()
}

#[test]
fn state_codes() {
    assert_eq!(NyxFileState::from_u8(0), NyxFileState::Invalid);
    assert_eq!(NyxFileState::from_u8(1), NyxFileState::Unstaged);
    assert_eq!(NyxFileState::from_u8(2), NyxFileState::Staged);
    assert_eq!(NyxFileState::from_u8(3), NyxFileState::Modified);
    assert_eq!(NyxFileState::from_u8(4), NyxFileState::Committed);
    assert_eq!(NyxFileState::from_u8(9), NyxFileState::Invalid);
    assert_eq!(NyxFileState::Committed.code(), 4);
}

#[test]
fn ledger_parse_degrades_to_invalid() {
    let index = Index::new("h1 a.txt 2\nh2 b.txt 7\n\nh3 c.txt x\nbroken\nh4 d.txt 300\nh5 e.txt 04\nh6 f.txt\n");
    assert_eq!(
        entries(&index),
        vec![
            ("h1".to_string(), "a.txt".to_string(), NyxFileState::Staged),
            ("h2".to_string(), "b.txt".to_string(), NyxFileState::Invalid),
            ("h3".to_string(), "c.txt".to_string(), NyxFileState::Invalid),
            ("h4".to_string(), "d.txt".to_string(), NyxFileState::Invalid),
            ("h5".to_string(), "e.txt".to_string(), NyxFileState::Committed),
            ("h6".to_string(), "f.txt".to_string(), NyxFileState::Invalid),
        ]
    );
}

#[test]
fn ledger_round_trip() {
    let mut index = Index::new("");
    assert_eq!(index.len(), 0);
    index.add("h1", "a.txt").unwrap();
    index.add("h2", "dir/b.txt").unwrap();
    let text = index.ledger();
    assert_eq!(text, "h1 a.txt 2\nh2 dir/b.txt 2\n");
    let again = Index::new(&text);
    assert_eq!(entries(&again), entries(&index));
}

#[test]
fn add_replaces_entry_for_same_path() {
    let mut index = Index::new("");
    index.add("h1", "p.txt").unwrap();
    index.add("other", "q.txt").unwrap();
    index.add("h2", "p.txt").unwrap();
    assert_eq!(
        entries(&index),
        vec![
            ("other".to_string(), "q.txt".to_string(), NyxFileState::Staged),
            ("h2".to_string(), "p.txt".to_string(), NyxFileState::Staged),
        ]
    );
}

#[test]
fn add_with_known_hash_is_a_no_op() {
    let mut index = Index::new("");
    index.add("h1", "p.txt").unwrap();
    index.add("h1", "copy.txt").unwrap();
    assert_eq!(entries(&index), vec![("h1".to_string(), "p.txt".to_string(), NyxFileState::Staged)]);
}

#[test]
fn get_status_cases() {
    let index = Index::new("h1 a.txt 2\nh2 b.txt 4\n");
    assert_eq!(index.get_status("h1", "a.txt"), NyxFileState::Staged);
    assert_eq!(index.get_status("h2", "elsewhere.txt"), NyxFileState::Committed);
    assert_eq!(index.get_status("new", "a.txt"), NyxFileState::Modified);
    assert_eq!(index.get_status("new", "new.txt"), NyxFileState::Unstaged);
    assert!(index.contains_hash(&"h2".to_string()));
    assert!(!index.contains_hash(&"h9".to_string()));
}

#[test]
fn has_dir_checks_separator() {
    let index = Index::new("h1 dir/a.txt 2\nh2 a.txt 2\n");
    assert!(index.entry(0).has_dir());
    assert!(!index.entry(1).has_dir());
}

fn blob(store: &mut ObjectStore, s: &str) -> String {
    store.write(s.as_bytes(), NyxObjectType::Blob)
}

#[test]
fn write_tree_groups_directories() {
    let mut store = ObjectStore::new();
    let a = blob(&mut store, "A");
    let b = blob(&mut store, "B");
    let c = blob(&mut store, "C");
    let mut index = Index::new("");
    index.add(&a, "dir/a.txt").unwrap();
    index.add(&b, "dir/b.txt").unwrap();
    index.add(&c, "c.txt").unwrap();
    let tree = index.write_tree(&mut store);
    assert_eq!(tree.entries.len(), 2);
    assert_eq!(tree.entries[0].entry_type, NyxObjectType::Blob);
    assert_eq!(tree.entries[0].path, "c.txt");
    assert_eq!(tree.entries[1].entry_type, NyxObjectType::Tree);
    assert_eq!(tree.entries[1].path, "dir");
    assert_eq!(tree.trees.len(), 1);
    let sub = &tree.trees[0];
    assert_eq!(sub.path, "dir");
    assert_eq!(sub.entries.len(), 2);
    assert_eq!(sub.entries[0].path, "a.txt");
    assert_eq!(sub.entries[0].entry_type, NyxObjectType::Blob);
    assert_eq!(sub.entries[1].path, "b.txt");
    assert_eq!(sub.entries[1].entry_type, NyxObjectType::Blob);
    assert_eq!(sub.hash, "80c6e7e95b5929eb0c701e9c2ef7b68b55c91548");
    assert_eq!(tree.entries[1].hash, sub.hash);
    assert_eq!(tree.hash, "80e0035ff277b30b3c012882738f8f2f98ec9008");
    assert!(store.contains(&tree.hash));
    assert!(store.contains(&sub.hash));
    // entries are sorted and committed
    let after = entries(&index);
    let paths: Vec<&str> = after.iter().map(|e| e.1.as_str()).collect();
    assert_eq!(paths, vec!["c.txt", "dir/a.txt", "dir/b.txt"]);
    assert!(after.iter().all(|e| e.2 == NyxFileState::Committed));
}

#[test]
fn tree_hash_is_deterministic_and_order_free() {
    let mut s1 = ObjectStore::new();
    let mut i1 = Index::new("");
    i1.add("h1", "x/one").unwrap();
    i1.add("h2", "b").unwrap();
    i1.add("h3", "x/two").unwrap();
    let t1 = i1.write_tree(&mut s1);
    let mut s2 = ObjectStore::new();
    let mut i2 = Index::new("");
    i2.add("h3", "x/two").unwrap();
    i2.add("h1", "x/one").unwrap();
    i2.add("h2", "b").unwrap();
    let t2 = i2.write_tree(&mut s2);
    assert_eq!(t1.hash, t2.hash);
    let t3 = i2.write_tree(&mut s2);
    assert_eq!(t2.hash, t3.hash);
}

#[test]
fn same_directory_contents_share_a_hash() {
    let mut store = ObjectStore::new();
    let mut index = Index::new("");
    index.add("h1", "p/d/f").unwrap();
    index.add("h2", "p/d/g").unwrap();
    let mut other = Index::new("");
    other.add("h1", "q/r/d/f").unwrap();
    other.add("h2", "q/r/d/g").unwrap();
    let t1 = index.write_tree(&mut store);
    let t2 = other.write_tree(&mut store);
    let d1 = &t1.trees[0].trees[0];
    let d2 = &t2.trees[0].trees[0].trees[0];
    assert_eq!(d1.path, "d");
    assert_eq!(d2.path, "d");
    assert_eq!(d1.hash, d2.hash);
    assert_ne!(t1.hash, t2.hash);
}

fn leaves(t: &Tree, prefix: &str, out: &mut Vec<(String, String)>) {
    for e in &t.entries {
        let p = if prefix.is_empty() { e.path.clone() } else { format!("{}/{}", prefix, e.path) };
        match e.entry_type {
            NyxObjectType::Blob => out.push((p, e.hash.clone())),
            _ => leaves(t.get_tree_by_hash(&e.hash).unwrap(), &p, out),
        }
    }
}

#[test]
fn tree_reader_round_trip() {
    let mut store = ObjectStore::new();
    let mut index = Index::new("");
    index.add("h1", "a/b/c.txt").unwrap();
    index.add("h2", "a/d.txt").unwrap();
    index.add("h3", "e.txt").unwrap();
    index.add("h4", "a/b/f.txt").unwrap();
    let built = index.write_tree(&mut store);
    let read = Tree::from_hash(&built.hash, &store).unwrap();
    assert_eq!(read.hash, built.hash);
    assert_eq!(read.path, ".");
    let mut got = Vec::new();
    leaves(&read, "", &mut got);
    got.sort();
    assert_eq!(
        got,
        vec![
            ("a/b/c.txt".to_string(), "h1".to_string()),
            ("a/b/f.txt".to_string(), "h4".to_string()),
            ("a/d.txt".to_string(), "h2".to_string()),
            ("e.txt".to_string(), "h3".to_string()),
        ]
    );
}

#[test]
fn tree_reader_errors() {
    let mut store = ObjectStore::new();
    assert!(Tree::from_hash("missing", &store).is_err());
    let bad = store.write(b"blob onlytwo\n", NyxObjectType::Tree);
    assert_eq!(Tree::from_hash(&bad, &store).unwrap_err(), nyx::errors::NyxError::EncodingError);
}

#[test]
fn listing_parse_and_content() {
    let parsed = parse_tree_listing("blob h1 a.txt\ntree h2 dir\nother h3 x\n").unwrap();
    assert_eq!(parsed.len(), 2);
    assert_eq!(parsed[0].entry_type, NyxObjectType::Blob);
    assert_eq!(parsed[1].entry_type, NyxObjectType::Tree);
    assert_eq!(parsed[1].hash, "h2");
    assert!(parse_tree_listing("blob h1\n").is_none());
    let mut t = Tree::new();
    t.add_blob("h1", "a.txt");
    let mut sub = Tree::new();
    sub.set_hash("h2");
    sub.set_path("dir");
    t.add_tree(sub);
    assert_eq!(t.content(), "blob h1 a.txt\ntree h2 dir\n");
    assert!(t.get_tree_by_hash("h2").is_some());
    assert!(t.get_tree_by_hash("h1").is_none());
}

#[test]
fn listing_is_ordered_by_name() {
    let mut store = ObjectStore::new();
    let mut index = Index::new("");
    index.add("h1", "a.txt").unwrap();
    index.add("h2", "a/b").unwrap();
    let tree = index.write_tree(&mut store);
    assert_eq!(tree.trees[0].hash, "c59b5203c25497771083937cfe0390d73ca2a5ef");
    assert_eq!(tree.hash, "8a28c808009026bad5c0b0f8b2b3f6e13b0c7688");
    assert_eq!(
        store.read(&tree.hash).unwrap(),
        "tree c59b5203c25497771083937cfe0390d73ca2a5ef a\nblob h1 a.txt\n"
    );
    let read = Tree::from_hash(&tree.hash, &store).unwrap();
    assert_eq!(read.entries[0].path, "a");
    assert_eq!(read.entries[1].path, "a.txt");
}

#[test]
fn content_orders_entries_by_name() {
    let mut t = Tree::new();
    t.add_blob("h1", "z");
    t.add_blob("h2", "b");
    t.add_blob("h3", "m");
    assert_eq!(t.content(), "blob h2 b\nblob h3 m\nblob h1 z\n");
}
