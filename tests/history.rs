use nyx::cl_args::NyxCommand;
use nyx::commit::{Commit, Refs};
use nyx::errors::NyxError;
use nyx::file_system::{split_object_hash, NyxFileSystem};
use nyx::index::Index;
use nyx::object_type::NyxObjectType;
use nyx::store::ObjectStore;
use nyx::worktree::{checkout, log, restore_working_tree_recursively, status};

fn empty_refs() -> Refs {
    Refs { head: String::new(), master: String::new() }
}

fn stage(store: &mut ObjectStore, index: &mut Index, path: &str, content: &str) -> String {
    let h = store.write(content.as_bytes(), NyxObjectType::Blob);
    index.add(&h, path).unwrap();
    h
}

fn commit_all(store: &mut ObjectStore, index: &mut Index, refs: &mut Refs, message: &str) -> String {
    let tree = index.write_tree(store);
    let mut c = Commit::new(&tree.hash, message, refs);
    c.write(store, refs);
    c.get_hash().to_string()
}

#[test]
fn commit_content_and_parse() {
    let refs = empty_refs();
    let c = Commit::new("t1", "msg", &refs);
    assert_eq!(c.get_content(), "tree t1\nmsg");
    assert_eq!(c.get_parent_hash(), "");
    let refs = Refs { head: "parentx".to_string(), master: String::new() };
    let c = Commit::new("t1", "msg", &refs);
    assert_eq!(c.get_content(), "tree t1\nparent parentx\nmsg");
    let back = Commit::parse("x", &c.get_content()).unwrap();
    assert_eq!(back.get_tree_hash(), "t1");
    assert_eq!(back.get_parent_hash(), "parentx");
    assert_eq!(back.get_message(), "msg");
    assert_eq!(back.get_hash(), "x");
    assert!(Commit::parse("x", "tree t1\n").is_none());
    assert!(Commit::parse("x", "a\nb\nc\nd").is_none());
    assert!(Commit::parse("x", "tree\nmsg").is_none());
}

#[test]
fn commit_round_trip_through_store() {
    let mut store = ObjectStore::new();
    let mut refs = Refs { head: "ref: refs/master".to_string(), master: "base".to_string() };
    let mut c = Commit::new("treehash", "a message", &refs);
    assert_eq!(c.get_parent_hash(), "base");
    c.write(&mut store, &mut refs);
    assert_eq!(refs.master, c.get_hash());
    assert_eq!(refs.head, "ref: refs/master");
    let back = Commit::from_hash(c.get_hash(), &store).unwrap();
    assert_eq!(back.get_tree_hash(), "treehash");
    assert_eq!(back.get_parent_hash(), "base");
    assert_eq!(back.get_message(), "a message");
    assert!(Commit::from_hash("", &store).is_none());
    assert!(Commit::from_hash("absent", &store).is_none());
}

#[test]
fn resolve_head_symbolic_and_literal() {
    let refs = Refs { head: "ref: refs/master".to_string(), master: "m1".to_string() };
    assert_eq!(refs.resolve_head(), "m1");
    let refs = Refs { head: "d1".to_string(), master: "m1".to_string() };
    assert_eq!(refs.resolve_head(), "d1");
    assert_eq!(Refs::symbolic(), "ref: refs/master");
}

#[test]
fn scenario_single_commit_log() {
    let mut store = ObjectStore::new();
    let mut index = Index::new("");
    let mut refs = empty_refs();
    assert!(log(&store, &refs).unwrap().is_empty());
    stage(&mut store, &mut index, "a.txt", "hi");
    let h = commit_all(&mut store, &mut index, &mut refs, "first");
    assert_eq!(h, "7513663db76216b381f89be45c877976a7b78bc7");
    let history = log(&store, &refs).unwrap();
    assert_eq!(history.len(), 1);
    assert_eq!(history[0].get_message(), "first");
    assert_eq!(history[0].get_parent_hash(), "");
    assert_eq!(store.read(&h).unwrap(), "tree 8598f9598d23d4565cb9f5b43fd8485a8aa4de02\nfirst");
    let head = Commit::from_head(&store, &refs).unwrap();
    assert_eq!(head.get_parent_hash(), "");
    assert_eq!(head.get_message(), "first");
    assert_eq!(head.get_content(), "tree 8598f9598d23d4565cb9f5b43fd8485a8aa4de02\nfirst");
}

#[test]
fn log_reports_dangling_hashes() {
    let mut store = ObjectStore::new();
    let refs = Refs { head: "feedbeef".to_string(), master: String::new() };
    assert_eq!(log(&store, &refs).err(), Some(NyxError::NotFound));
    let mut refs = empty_refs();
    let mut c = Commit::new("t1", "orphan", &Refs { head: "missingparent".to_string(), master: String::new() });
    c.write(&mut store, &mut refs);
    assert_eq!(log(&store, &refs).err(), Some(NyxError::NotFound));
    let bad = store.write(b"not a commit", NyxObjectType::Commit);
    let refs = Refs { head: bad, master: String::new() };
    assert_eq!(log(&store, &refs).err(), Some(NyxError::EncodingError));
}

#[test]
fn log_follows_the_chain() {
    let mut store = ObjectStore::new();
    let mut index = Index::new("");
    let mut refs = empty_refs();
    let mut hashes = Vec::new();
    for (i, msg) in ["one", "two", "three"].iter().enumerate() {
        stage(&mut store, &mut index, "f.txt", &format!("v{}", i));
        hashes.push(commit_all(&mut store, &mut index, &mut refs, msg));
    }
    let history = log(&store, &refs).unwrap();
    assert_eq!(history.len(), 3);
    assert_eq!(history[0].get_message(), "three");
    assert_eq!(history[1].get_message(), "two");
    assert_eq!(history[2].get_message(), "one");
    assert_eq!(history[0].get_hash(), hashes[2]);
    assert_eq!(history[0].get_parent_hash(), hashes[1]);
    assert_eq!(history[2].get_parent_hash(), "");
}

#[test]
fn scenario_checkout_detached_and_back() {
    let mut store = ObjectStore::new();
    let mut index = Index::new("");
    let mut refs = empty_refs();
    stage(&mut store, &mut index, "a.txt", "one");
    let first = commit_all(&mut store, &mut index, &mut refs, "first");
    stage(&mut store, &mut index, "a.txt", "two");
    stage(&mut store, &mut index, "d/b.txt", "bee");
    let second = commit_all(&mut store, &mut index, &mut refs, "second");

    let plan = checkout(&first, &store, &mut refs).unwrap();
    assert!(!plan.is_master);
    assert_eq!(plan.hash, first);
    assert_eq!(refs.head, first);
    assert_eq!(plan.commit.get_message(), "first");
    assert_eq!(plan.files, vec![("a.txt".to_string(), "one".to_string())]);

    let plan = checkout("master", &store, &mut refs).unwrap();
    assert!(plan.is_master);
    assert_eq!(plan.hash, second);
    assert_eq!(refs.head, "ref: refs/master");
    assert_eq!(
        plan.files,
        vec![("a.txt".to_string(), "two".to_string()), ("d/b.txt".to_string(), "bee".to_string())]
    );
}

#[test]
fn checkout_of_missing_commit_changes_nothing() {
    let store = ObjectStore::new();
    let mut refs = Refs { head: "ref: refs/master".to_string(), master: "m".to_string() };
    assert_eq!(checkout("feedbeef", &store, &mut refs).err(), Some(NyxError::NotFound));
    assert_eq!(refs.head, "ref: refs/master");
    assert_eq!(refs.master, "m");
}

#[test]
fn restore_lists_nested_files() {
    let mut store = ObjectStore::new();
    let mut index = Index::new("");
    stage(&mut store, &mut index, "x/y/z.txt", "deep");
    stage(&mut store, &mut index, "top.txt", "top");
    let tree = index.write_tree(&mut store);
    let files = restore_working_tree_recursively(&tree, "root", &store, 10).unwrap();
    assert_eq!(
        files,
        vec![
            ("root/top.txt".to_string(), "top".to_string()),
            ("root/x/y/z.txt".to_string(), "deep".to_string()),
        ]
    );
    assert!(restore_working_tree_recursively(&tree, "", &store, 0).is_err());
}

#[test]
fn scenario_status_reports_modified() {
    let mut store = ObjectStore::new();
    let mut index = Index::new("");
    stage(&mut store, &mut index, "a.txt", "draft");
    stage(&mut store, &mut index, "b.txt", "kept");
    let files = vec![
        ("a.txt".to_string(), b"changed".to_vec()),
        ("b.txt".to_string(), b"kept".to_vec()),
        ("c.txt".to_string(), b"new".to_vec()),
    ];
    let report = status(&index, &files);
    assert_eq!(report.modified, vec!["a.txt".to_string()]);
    assert_eq!(report.staged, vec!["b.txt".to_string()]);
    assert_eq!(report.unstaged, vec!["c.txt".to_string()]);
}

#[test]
fn status_counts_committed_entries_as_staged() {
    let mut store = ObjectStore::new();
    let mut index = Index::new("");
    stage(&mut store, &mut index, "a.txt", "same");
    index.write_tree(&mut store);
    let report = status(&index, &vec![("a.txt".to_string(), b"same".to_vec())]);
    assert_eq!(report.staged, vec!["a.txt".to_string()]);
    let empty = status(&index, &vec![("e.txt".to_string(), Vec::new())]);
    assert_eq!(empty.unstaged, vec!["e.txt".to_string()]);
}

#[test]
fn status_counts_invalid_entries_as_absent() {
    let mut store = ObjectStore::new();
    let h = store.write(b"same", NyxObjectType::Blob);
    let index = Index::new(&format!("{} a.txt 9\nother b.txt\n", h));
    let report = status(
        &index,
        &vec![("a.txt".to_string(), b"same".to_vec()), ("b.txt".to_string(), b"x".to_vec())],
    );
    assert!(report.staged.is_empty());
    assert!(report.modified.is_empty());
    assert_eq!(report.unstaged, vec!["a.txt".to_string(), "b.txt".to_string()]);
}

#[test]
fn repository_paths() {
    let fs = NyxFileSystem::new("/r", true, "");
    assert!(fs.is_repository());
    assert_eq!(fs.get_root_dir(), "/r");
    assert_eq!(fs.get_repo_dir(), "/r/.meta");
    assert_eq!(fs.get_objects_dir_path(), "/r/.meta/objects");
    assert_eq!(fs.get_refs_dir_path(), "/r/.meta/refs");
    assert_eq!(fs.get_object_dir_path("ab"), "/r/.meta/objects/ab");
    assert_eq!(fs.get_object_path("ab", "cdef"), "/r/.meta/objects/ab/cdef");
    assert_eq!(fs.get_head_path(), "/r/.meta/HEAD");
    assert_eq!(fs.get_index_path(), "/r/.meta/index");
    assert!(!NyxFileSystem::new("", false, "").is_repository());
}

#[test]
fn ignore_patterns_match_trailing_components() {
    let fs = NyxFileSystem::new("/r", true, "target\n\nbuild/out\n");
    assert!(fs.is_ignored("/r/.meta"));
    assert!(fs.is_ignored("/r/target"));
    assert!(fs.is_ignored("/r/x/build/out"));
    assert!(!fs.is_ignored("/r/mytarget"));
    assert!(!fs.is_ignored("/r/out"));
    assert!(!fs.is_ignored("/r/src/main.rs"));
}

#[test]
fn object_hash_splits_into_dir_and_file() {
    assert_eq!(split_object_hash("abcdef"), Some(("ab".to_string(), "cdef".to_string())));
    assert_eq!(split_object_hash("a"), None);
}

#[test]
fn only_init_runs_outside_a_repository() {
    assert!(!NyxCommand::Init.requires_repository());
    assert!(NyxCommand::Status.requires_repository());
    assert!(NyxCommand::Add { paths: vec!["a".to_string()] }.requires_repository());
}

#[test]
fn add_stages_each_file_as_a_blob() {
    let mut store = ObjectStore::new();
    let mut index = Index::new("");
    let files = vec![
        ("a.txt".to_string(), b"hi".to_vec()),
        ("d/b.txt".to_string(), b"bee".to_vec()),
        ("a.txt".to_string(), b"hello".to_vec()),
    ];
    nyx::worktree::add(&mut index, &mut store, &files).unwrap();
    assert_eq!(index.len(), 2);
    assert_eq!(index.entry(0).path, "d/b.txt");
    assert_eq!(index.entry(1).path, "a.txt");
    assert_eq!(index.entry(1).hash, nyx::object::object_hash(b"hello", NyxObjectType::Blob));
    assert_eq!(store.read(&index.entry(0).hash), Ok("bee".to_string()));
    assert!(store.contains("32f95c0d1244a78b2be1bab8de17906fabb2c4a8"));
}
