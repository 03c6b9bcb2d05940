//! Reconciling the working directory with stored snapshots: history, checkout
//! and status.
use vstd::prelude::*;
use crate::commit::{commit_at, parse_commit, resolved, Commit, Refs};
use crate::errors::NyxError;
use crate::index::{has_live_hash, has_live_path, Index};
use crate::object::object_hash;
use crate::object::object_hash_of;
use crate::object_type::NyxObjectType;
use crate::store::ObjectStore;
use crate::tree::{first_tree, Tree};
use crate::text::push_char;

verus! {

/// A file of the working directory: path relative to the root, and content.
pub type FileView = (Seq<char>, Seq<char>);

/// `name` inside directory `dir` (the root when `dir` is empty).
pub open spec fn join(dir: Seq<char>, name: Seq<char>) -> Seq<char> {
    if dir.len() == 0 {
        name
    } else {
        dir + seq!['/'] + name
    }
}

/// The files that the first `n` entries of `t` put in directory `dir`, reading
/// blobs from `store` and going at most `depth` levels down; `None` when a
/// blob cannot be read or a subtree is missing or too deep.
pub open spec fn files_upto(store: ObjectStore, t: Tree, dir: Seq<char>, depth: nat, n: nat) -> Option<Seq<FileView>>
    decreases depth, n,
{
    if n == 0 || n > t.entries@.len() {
        if n == 0 {
            Some(Seq::empty())
        } else {
            None
        }
    } else {
        match files_upto(store, t, dir, depth, (n - 1) as nat) {
            None => None,
            Some(prev) => {
                let e = t.entries@[n - 1];
                if e.entry_type == NyxObjectType::Blob {
                    match store.read_spec(e.hash@) {
                        Ok(c) => Some(prev.push((join(dir, e.path@), c))),
                        Err(_) => None,
                    }
                } else if e.entry_type == NyxObjectType::Tree {
                    match first_tree(t.trees@, e.hash@) {
                        Some(sub) => if depth > 0 {
                            match files_upto(
                                store,
                                sub,
                                join(dir, e.path@),
                                (depth - 1) as nat,
                                sub.entries@.len(),
                            ) {
                                Some(fs) => Some(prev + fs),
                                None => None,
                            }
                        } else {
                            None
                        },
                        None => None,
                    }
                } else {
                    Some(prev)
                }
            },
        }
    }
}

/// The files that tree `t` puts in directory `dir`.
pub open spec fn files_of(store: ObjectStore, t: Tree, dir: Seq<char>, depth: nat) -> Option<Seq<FileView>> {
    files_upto(store, t, dir, depth, t.entries@.len())
}

/// Two trees that read as the store holds them under one hash put the same
/// files in a directory.
proof fn lemma_files_same(store: ObjectStore, t1: Tree, t2: Tree, dir: Seq<char>, d: nat, n: nat)
    requires
        crate::tree::reads_as(store, t1, d),
        crate::tree::reads_as(store, t2, d),
        t1.hash@ == t2.hash@,
    ensures
        files_upto(store, t1, dir, d, n) == files_upto(store, t2, dir, d, n),
    decreases d, n,
{
    crate::tree::lemma_same_reading(store, t1, t2, d);
    if n > 0 && n <= t1.entries@.len() {
        lemma_files_same(store, t1, t2, dir, d, (n - 1) as nat);
        let e1 = t1.entries@[n - 1];
        let e2 = t2.entries@[n - 1];
        assert(crate::tree::triples(t1.entries@)[n - 1] == crate::tree::entry_triple(e1));
        assert(crate::tree::triples(t2.entries@)[n - 1] == crate::tree::entry_triple(e2));
        if e1.entry_type == NyxObjectType::Tree {
            let h = e1.hash@;
            crate::tree::lemma_first_tree_index(t1.trees@, h);
            crate::tree::lemma_first_tree_index(t2.trees@, h);
            if first_tree(t1.trees@, h) is Some {
                let k = choose|k: int|
                    0 <= k < t1.trees@.len() && t1.trees@[k] == first_tree(t1.trees@, h)->Some_0
                        && t1.trees@[k].hash@ == h && forall|j: int|
                        0 <= j < k ==> (#[trigger] t1.trees@[j]).hash@ != h;
                assert(t2.trees@[k].hash@ == h);
                assert forall|j: int| 0 <= j < k implies (#[trigger] t2.trees@[j]).hash@ != h by {
                    assert(t1.trees@[j].hash@ == t2.trees@[j].hash@);
                }
                crate::tree::lemma_first_tree_at(t2.trees@, h, k);
                let x1 = t1.trees@[k];
                let x2 = t2.trees@[k];
                assert(x1.path@ == x1.path@);
                if d > 0 {
                    assert(crate::tree::reads_as(store, x1, (d - 1) as nat));
                    assert(crate::tree::reads_as(store, x2, (d - 1) as nat));
                    crate::tree::lemma_same_reading(store, x1, x2, (d - 1) as nat);
                    lemma_files_same(store, x1, x2, join(dir, e1.path@), (d - 1) as nat, x1.entries@.len());
                }
            } else {
                assert forall|j: int| 0 <= j < t2.trees@.len() implies (#[trigger] t2.trees@[j]).hash@ != h by {
                    assert(t1.trees@[j].hash@ == t2.trees@[j].hash@);
                }
                crate::tree::lemma_first_tree_at(t2.trees@, h, t2.trees@.len() as int);
            }
        }
    }
}

fn join_exec(dir: &str, name: &str) -> (r: String)
    ensures
        r@ == join(dir@, name@),
{
    if dir.is_empty() {
        String::from_str(name)
    } else {
        let mut r = String::from_str(dir);
        push_char(&mut r, '/');
        r.append(name);
        r
    }
}

/// Lists the files that `tree` puts in directory `path`, with their contents,
/// in the order of its entries, subdirectories expanded in place.
pub fn restore_working_tree_recursively(tree: &Tree, path: &str, store: &ObjectStore, depth: usize) -> (r: Result<Vec<(String, String)>, NyxError>)
    ensures
        r matches Ok(v) ==> files_of(*store, *tree, path@, depth as nat) == Some(
            v@.map_values(|f: (String, String)| (f.0@, f.1@)),
        ),
        r is Err ==> files_of(*store, *tree, path@, depth as nat) is None,
    decreases depth,
{
    let mut out: Vec<(String, String)> = Vec::new();
    let mut i: usize = 0;
    while i < tree.entries.len()
        invariant
            i <= tree.entries@.len(),
            files_upto(*store, *tree, path@, depth as nat, i as nat) == Some(
                out@.map_values(|f: (String, String)| (f.0@, f.1@)),
            ),
        decreases tree.entries@.len() - i,
    {
        let ghost before = out@.map_values(|f: (String, String)| (f.0@, f.1@));
        let e = &tree.entries[i];
        if e.entry_type == NyxObjectType::Blob {
            match store.read(e.hash.as_str()) {
                Ok(content) => {
                    let f = (join_exec(path, e.path.as_str()), content);
                    out.push(f);
                    proof {
                        assert(out@.map_values(|f: (String, String)| (f.0@, f.1@)) == before.push(
                            (f.0@, f.1@),
                        ));
                    }
                },
                Err(err) => {
                    proof {
                        lemma_files_none_extends(*store, *tree, path@, depth as nat, i as nat + 1);
                    }
                    return Err(err);
                },
            }
        } else if e.entry_type == NyxObjectType::Tree {
            let dir = join_exec(path, e.path.as_str());
            let sub = match tree.get_tree_by_hash(e.hash.as_str()) {
                Some(t) => t,
                None => {
                    proof {
                        lemma_files_none_extends(*store, *tree, path@, depth as nat, i as nat + 1);
                    }
                    return Err(NyxError::NotFound);
                },
            };
            if depth == 0 {
                proof {
                    lemma_files_none_extends(*store, *tree, path@, depth as nat, i as nat + 1);
                }
                return Err(NyxError::EncodingError);
            }
            match restore_working_tree_recursively(sub, dir.as_str(), store, depth - 1) {
                Ok(fs) => {
                    let ghost fsv = fs@.map_values(|f: (String, String)| (f.0@, f.1@));
                    let mut k: usize = 0;
                    while k < fs.len()
                        invariant
                            k <= fs@.len(),
                            fsv == fs@.map_values(|f: (String, String)| (f.0@, f.1@)),
                            out@.map_values(|f: (String, String)| (f.0@, f.1@)) == before + fsv.take(k as int),
                        decreases fs@.len() - k,
                    {
                        let f = (fs[k].0.clone(), fs[k].1.clone());
                        let ghost prev = out@.map_values(|f: (String, String)| (f.0@, f.1@));
                        out.push(f);
                        proof {
                            assert(out@.map_values(|f: (String, String)| (f.0@, f.1@)) == prev.push((f.0@, f.1@)));
                            assert(fsv.take(k + 1) == fsv.take(k as int).push(fsv[k as int]));
                        }
                        k = k + 1;
                    }
                    proof {
                        assert(fsv.take(fsv.len() as int) == fsv);
                    }
                },
                Err(err) => {
                    proof {
                        lemma_files_none_extends(*store, *tree, path@, depth as nat, i as nat + 1);
                    }
                    return Err(err);
                },
            }
        }
        i = i + 1;
    }
    Ok(out)
}

proof fn lemma_files_none_extends(store: ObjectStore, t: Tree, dir: Seq<char>, depth: nat, n: nat)
    requires
        0 < n <= t.entries@.len(),
        files_upto(store, t, dir, depth, n) is None,
    ensures
        files_of(store, t, dir, depth) is None,
    decreases t.entries@.len() - n,
{
    if n < t.entries@.len() {
        lemma_files_none_extends(store, t, dir, depth, n + 1);
    }
}

/// `c` is the commit that the store holds under `c`'s hash.
pub open spec fn stored_as(store: ObjectStore, c: Commit) -> bool {
    parse_commit(store.read_spec(c.hash())->Ok_0) == Some((c.tree_hash(), c.parent(), c.message()))
}

/// The parent named by the commit stored under `h`.
pub open spec fn stored_parent(store: ObjectStore, h: Seq<char>) -> Seq<char> {
    parse_commit(store.read_spec(h)->Ok_0)->Some_0.1
}

proof fn lemma_log_prefix(
    store: ObjectStore,
    chain: Seq<Seq<char>>,
    r: Seq<Commit>,
    i: int,
)
    requires
        0 <= i < r.len(),
        i < chain.len(),
        r[0].hash() == chain.last(),
        forall|k: int| 0 <= k < r.len() ==> stored_as(store, #[trigger] r[k]),
        forall|k: int| 0 < k < r.len() ==> (#[trigger] r[k]).hash() == r[k - 1].parent(),
        forall|k: int| 0 < k < chain.len() ==> stored_parent(store, #[trigger] chain[k]) == chain[k - 1],
    ensures
        r[i].hash() == chain[chain.len() - 1 - i],
    decreases i,
{
    if i > 0 {
        lemma_log_prefix(store, chain, r, i - 1);
        let h = chain[chain.len() - i];
        assert(stored_as(store, r[i - 1]));
        assert(stored_parent(store, h) == chain[chain.len() - 1 - i]);
    }
}

/// History: when HEAD names the newest of a chain of stored commits, each
/// the parent of the next and the oldest a root, and the store holds at least
/// as many objects as the chain has commits, a list that meets the
/// guarantees of a successful `log` is exactly that chain, newest first: one commit per commit written.
pub proof fn lemma_log_visits_chain(store: ObjectStore, head: Seq<char>, chain: Seq<Seq<char>>, r: Seq<Commit>)
    requires
        0 < chain.len() <= store.size(),
        head == chain.last(),
        forall|k: int| 0 <= k < chain.len() ==> commit_at(store, #[trigger] chain[k]),
        stored_parent(store, chain[0]).len() == 0,
        forall|k: int| 0 < k < chain.len() ==> stored_parent(store, #[trigger] chain[k]) == chain[k - 1],
        r.len() <= store.size() + 1,
        r.len() == 0 <==> head.len() == 0,
        r.len() > 0 ==> r[0].hash() == head,
        forall|i: int| 0 <= i < r.len() ==> commit_at(store, (#[trigger] r[i]).hash()),
        forall|i: int| 0 <= i < r.len() ==> stored_as(store, #[trigger] r[i]),
        forall|i: int| 0 < i < r.len() ==> (#[trigger] r[i]).hash() == r[i - 1].parent(),
        0 < r.len() <= store.size() ==> r[r.len() - 1].parent().len() == 0,
    ensures
        r.len() == chain.len(),
        forall|i: int| 0 <= i < r.len() ==> (#[trigger] r[i]).hash() == chain[chain.len() - 1 - i],
{
    let n = chain.len() as int;
    assert(commit_at(store, chain[n - 1]));
    if r.len() < n {
        let m = r.len();
        lemma_log_prefix(store, chain, r, m - 1);
        assert(stored_as(store, r[m - 1]));
        assert(r[m - 1].parent() == chain[n - 1 - m]);
        assert(commit_at(store, chain[n - 1 - m]));
    }
    if r.len() > n {
        lemma_log_prefix(store, chain, r, n - 1);
        assert(stored_as(store, r[n - 1]));
        assert(r[n].hash() == r[n - 1].parent());
        assert(commit_at(store, r[n].hash()));
    }
    assert forall|i: int| 0 <= i < r.len() implies (#[trigger] r[i]).hash() == chain[chain.len() - 1 - i] by {
        lemma_log_prefix(store, chain, r, i);
    }
}

/// The history from HEAD back to the root commit, newest first, taking at
/// most one more step than there are stored objects. A hash on the way that
/// names no readable commit (HEAD's, or a listed commit's parent) is an error:
/// `NotFound` when nothing is stored under it.
pub fn log(store: &ObjectStore, refs: &Refs) -> (r: Result<Vec<Commit>, NyxError>)
    ensures
        r matches Ok(v) ==> {
            &&& v@.len() <= store.size() + 1
            &&& v@.len() == 0 <==> resolved(refs.head@, refs.master@).len() == 0
            &&& v@.len() > 0 ==> v@[0].hash() == resolved(refs.head@, refs.master@)
            &&& forall|i: int| 0 <= i < v@.len() ==> commit_at(*store, (#[trigger] v@[i]).hash())
            &&& forall|i: int| 0 <= i < v@.len() ==> stored_as(*store, #[trigger] v@[i])
            &&& forall|i: int| 0 < i < v@.len() ==> (#[trigger] v@[i]).hash() == v@[i - 1].parent()
            &&& 0 < v@.len() <= store.size() ==> v@[v@.len() - 1].parent().len() == 0
        },
        r is Err ==> (resolved(refs.head@, refs.master@).len() > 0 && !commit_at(
            *store,
            resolved(refs.head@, refs.master@),
        )) || exists|c: Commit|
            commit_at(*store, c.hash()) && stored_as(*store, c) && c.parent().len() > 0
                && !commit_at(*store, c.parent()),
        resolved(refs.head@, refs.master@).len() > 0 ==> (store.read_spec(
            resolved(refs.head@, refs.master@),
        ) matches Err(e) ==> r == Err::<Vec<Commit>, NyxError>(e)),
{
    let bound = store.len();
    let mut out: Vec<Commit> = Vec::new();
    let mut next = refs.resolve_head();
    while !next.as_str().is_empty() && out.len() <= bound
        invariant
            out@.len() <= bound + 1,
            bound == store.size(),
            out@.len() == 0 ==> next@ == resolved(refs.head@, refs.master@),
            out@.len() > 0 ==> next@ == out@[out@.len() - 1].parent(),
            out@.len() > 0 ==> out@[0].hash() == resolved(refs.head@, refs.master@),
            forall|i: int| 0 <= i < out@.len() ==> commit_at(*store, (#[trigger] out@[i]).hash()),
            forall|i: int| 0 <= i < out@.len() ==> stored_as(*store, #[trigger] out@[i]),
            forall|i: int| 0 < i < out@.len() ==> (#[trigger] out@[i]).hash() == out@[i - 1].parent(),
        decreases bound + 1 - out@.len(),
    {
        if let Err(e) = store.read(next.as_str()) {
            proof {
                if out@.len() > 0 {
                    let c = out@[out@.len() - 1];
                    assert(commit_at(*store, c.hash()) && stored_as(*store, c));
                }
            }
            return Err(e);
        }
        let c = match Commit::from_hash(next.as_str(), store) {
            Some(c) => c,
            None => {
                proof {
                    if out@.len() > 0 {
                        let c = out@[out@.len() - 1];
                        assert(commit_at(*store, c.hash()) && stored_as(*store, c));
                    }
                }
                return Err(NyxError::EncodingError);
            },
        };
        next = String::from_str(c.get_parent_hash());
        out.push(c);
    }
    Ok(out)
}

/// What a checkout leads to: the commit checked out, whether HEAD follows the
/// branch, and the files of the commit's tree with their contents.
pub struct CheckoutPlan {
    pub hash: String,
    pub is_master: bool,
    pub commit: Commit,
    pub files: Vec<(String, String)>,
}

pub open spec fn master_name() -> Seq<char> {
    seq!['m', 'a', 's', 't', 'e', 'r']
}

/// The commit a checkout target names: the branch tip for `master`, else the
/// target itself.
pub open spec fn target_hash(target: Seq<char>, master: Seq<char>) -> Seq<char> {
    if target == master_name() {
        master
    } else {
        target
    }
}

/// Checks out `target` (a commit hash, or `master` for the branch tip): the
/// commit must be stored, else nothing changes and its error is returned.
/// On success HEAD names the branch symbolically when `master` was given and
/// holds the literal hash otherwise (detached), and the plan lists the files
/// that the working directory is to hold.
pub fn checkout(target: &str, store: &ObjectStore, refs: &mut Refs) -> (r: Result<CheckoutPlan, NyxError>)
    ensures
        store.read_spec(target_hash(target@, old(refs).master@)) matches Err(e) ==> r == Err::<
            CheckoutPlan,
            NyxError,
        >(e),
        r is Err ==> final(refs).head@ == old(refs).head@ && final(refs).master@ == old(refs).master@,
        !commit_at(*store, target_hash(target@, old(refs).master@)) ==> r is Err,
        commit_at(*store, target_hash(target@, old(refs).master@)) && (exists|t: Tree|
            t.hash@ == parse_commit(
                store.read_spec(target_hash(target@, old(refs).master@))->Ok_0,
            )->Some_0.0 && crate::tree::reads_as(*store, t, store.size()) && files_of(
                *store,
                t,
                Seq::<char>::empty(),
                store.size(),
            ) is Some) ==> r is Ok,
        r matches Ok(p) ==> stored_as(*store, p.commit),
        r matches Ok(p) ==> {
            &&& p.hash@ == target_hash(target@, old(refs).master@)
            &&& p.is_master == (target@ == master_name())
            &&& p.commit.hash() == p.hash@
            &&& commit_at(*store, p.hash@)
            &&& exists|t: Tree|
                t.hash@ == p.commit.tree_hash() && crate::tree::reads_as(*store, t, store.size())
                    && files_of(*store, t, Seq::<char>::empty(), store.size()) == Some(
                    p.files@.map_values(|f: (String, String)| (f.0@, f.1@)),
                )
            &&& final(refs).master@ == old(refs).master@
            &&& final(refs).head@ == if p.is_master {
                crate::commit::symbolic_head()
            } else {
                p.hash@
            }
        },
{
    let m = String::from_str("master");
    proof {
        reveal_strlit("master");
    }
    let t = String::from_str(target);
    let is_master = t == m;
    proof {
        assert(m@ == master_name());
    }
    let hash = if is_master { refs.master.clone() } else { t };
    proof {
        assert(hash@ == target_hash(target@, refs.master@));
    }
    if let Err(e) = store.read(hash.as_str()) {
        return Err(e);
    }
    let commit = match Commit::from_hash(hash.as_str(), store) {
        Some(c) => c,
        None => return Err(NyxError::EncodingError),
    };
    let tree = match Tree::from_hash(commit.get_tree_hash(), store) {
        Ok(t) => t,
        Err(e) => return Err(e),
    };
    let root = String::new();
    let files = match restore_working_tree_recursively(&tree, root.as_str(), store, store.len()) {
        Ok(f) => f,
        Err(e) => {
            proof {
                assert(root@ == Seq::<char>::empty());
                if exists|t: Tree|
                    t.hash@ == commit.tree_hash() && crate::tree::reads_as(*store, t, store.size())
                        && files_of(*store, t, Seq::<char>::empty(), store.size()) is Some {
                    let t = choose|t: Tree|
                        t.hash@ == commit.tree_hash() && crate::tree::reads_as(*store, t, store.size())
                            && files_of(*store, t, Seq::<char>::empty(), store.size()) is Some;
                    crate::tree::lemma_same_reading(*store, t, tree, store.size());
                    lemma_files_same(*store, t, tree, Seq::<char>::empty(), store.size(), t.entries@.len());
                }
            }
            return Err(e);
        },
    };
    refs.head = if is_master { Refs::symbolic() } else { hash.clone() };
    proof {
        assert(root@ == Seq::<char>::empty());
        assert(tree.hash@ == commit.tree_hash() && crate::tree::reads_as(*store, tree, store.size())
            && files_of(*store, tree, Seq::<char>::empty(), store.size()) == Some(
            files@.map_values(|f: (String, String)| (f.0@, f.1@)),
        ));
    }
    Ok(CheckoutPlan { hash, is_master, commit, files })
}

/// Which bucket of the status report a file falls in.
#[derive(Debug, Clone, Copy, PartialEq, Eq, Structural)]
pub enum Bucket {
    Staged,
    Modified,
    Unstaged,
}

/// The bucket of a file with content `c` at path `p`: staged when an entry
/// carries its blob hash, whether staged or committed; modified when only its
/// path is known; unstaged otherwise. `Invalid` entries count as absent.
pub open spec fn bucket_of(es: Seq<crate::index::EntryView>, p: Seq<char>, c: Seq<u8>) -> Bucket {
    let h = object_hash_of(NyxObjectType::Blob, c);
    if has_live_hash(es, h) {
        Bucket::Staged
    } else if has_live_path(es, p) {
        Bucket::Modified
    } else {
        Bucket::Unstaged
    }
}

/// The paths of the files that fall in bucket `b`, in order.
pub open spec fn paths_in(es: Seq<crate::index::EntryView>, fs: Seq<(Seq<char>, Seq<u8>)>, b: Bucket) -> Seq<Seq<char>>
    decreases fs.len(),
{
    if fs.len() == 0 {
        Seq::empty()
    } else {
        let rest = paths_in(es, fs.drop_last(), b);
        if bucket_of(es, fs.last().0, fs.last().1) == b {
            rest.push(fs.last().0)
        } else {
            rest
        }
    }
}

/// The working directory's files sorted into the three buckets.
pub struct StatusReport {
    pub staged: Vec<String>,
    pub modified: Vec<String>,
    pub unstaged: Vec<String>,
}

pub open spec fn strings_view(v: Seq<String>) -> Seq<Seq<char>> {
    v.map_values(|s: String| s@)
}

pub open spec fn files_view(v: Seq<(String, Vec<u8>)>) -> Seq<(Seq<char>, Seq<u8>)> {
    v.map_values(|f: (String, Vec<u8>)| (f.0@, f.1@))
}

/// Classifies each file (path relative to the root, content) against the index.
pub fn status(index: &Index, files: &Vec<(String, Vec<u8>)>) -> (r: StatusReport)
    ensures
        strings_view(r.staged@) == paths_in(index@, files_view(files@), Bucket::Staged),
        strings_view(r.modified@) == paths_in(index@, files_view(files@), Bucket::Modified),
        strings_view(r.unstaged@) == paths_in(index@, files_view(files@), Bucket::Unstaged),
{
    let ghost fv = files_view(files@);
    let mut staged: Vec<String> = Vec::new();
    let mut modified: Vec<String> = Vec::new();
    let mut unstaged: Vec<String> = Vec::new();
    let mut i: usize = 0;
    while i < files.len()
        invariant
            i <= files@.len(),
            fv == files_view(files@),
            strings_view(staged@) == paths_in(index@, fv.take(i as int), Bucket::Staged),
            strings_view(modified@) == paths_in(index@, fv.take(i as int), Bucket::Modified),
            strings_view(unstaged@) == paths_in(index@, fv.take(i as int), Bucket::Unstaged),
        decreases files@.len() - i,
    {
        proof {
            assert(fv.take(i + 1).drop_last() == fv.take(i as int));
            assert(fv.take(i + 1).last() == fv[i as int]);
        }
        let path = &files[i].0;
        let hash = object_hash(files[i].1.as_slice(), NyxObjectType::Blob);
        let known = index.has_live_hash(&hash);
        let changed = index.has_live_path(path);
        let ghost (s0, m0, u0) = (staged@, modified@, unstaged@);
        if known {
            staged.push(path.clone());
            proof {
                assert(strings_view(staged@) == strings_view(s0).push(path@));
            }
        } else if changed {
            modified.push(path.clone());
            proof {
                assert(strings_view(modified@) == strings_view(m0).push(path@));
            }
        } else {
            unstaged.push(path.clone());
            proof {
                assert(strings_view(unstaged@) == strings_view(u0).push(path@));
            }
        }
        i = i + 1;
    }
    proof {
        assert(fv.take(fv.len() as int) == fv);
    }
    StatusReport { staged, modified, unstaged }
}

/// The index entries after staging each file in turn (path, content), each
/// under the hash of its content as a blob.
pub open spec fn added_all(es: Seq<crate::index::EntryView>, fs: Seq<(Seq<char>, Seq<u8>)>) -> Seq<crate::index::EntryView>
    decreases fs.len(),
{
    if fs.len() == 0 {
        es
    } else {
        crate::index::added(
            added_all(es, fs.drop_last()),
            object_hash_of(NyxObjectType::Blob, fs.last().1),
            fs.last().0,
        )
    }
}

/// Stages files (path relative to the root, content): stores each content as
/// a blob and records its hash at its path.
pub fn add(index: &mut Index, store: &mut ObjectStore, files: &Vec<(String, Vec<u8>)>) -> (r: Result<(), NyxError>)
    requires
        old(store).wf(),
    ensures
        final(store).wf(),
        r is Ok,
        final(index)@ == added_all(old(index)@, files_view(files@)),
        forall|i: int|
            0 <= i < files@.len() ==> final(store).get(
                object_hash_of(NyxObjectType::Blob, (#[trigger] files@[i]).1@),
            ) is Some,
{
    let ghost fv = files_view(files@);
    let mut i: usize = 0;
    while i < files.len()
        invariant
            i <= files@.len(),
            fv == files_view(files@),
            store.wf(),
            index@ == added_all(old(index)@, fv.take(i as int)),
            forall|j: int|
                0 <= j < i ==> store.get(object_hash_of(NyxObjectType::Blob, (#[trigger] files@[j]).1@)) is Some,
        decreases files@.len() - i,
    {
        proof {
            assert(fv.take(i + 1).drop_last() == fv.take(i as int));
            assert(fv.take(i + 1).last() == fv[i as int]);
        }
        let ghost before = *store;
        let hash = store.write(files[i].1.as_slice(), NyxObjectType::Blob);
        let _ = index.add(hash.as_str(), files[i].0.as_str());
        proof {
            assert forall|j: int| 0 <= j <= i implies store.get(
                object_hash_of(NyxObjectType::Blob, (#[trigger] files@[j]).1@),
            ) is Some by {
                if object_hash_of(NyxObjectType::Blob, files@[j].1@) != hash@ {
                    assert(before.get(object_hash_of(NyxObjectType::Blob, files@[j].1@)) is Some);
                }
            }
        }
        i = i + 1;
    }
    proof {
        assert(fv.take(fv.len() as int) == fv);
    }
    Ok(())
}

} // verus!
