//! Trees: hierarchical directory snapshots and their stored form.
use vstd::prelude::*;
use crate::errors::NyxError;
use crate::object_type::{kind_name, NyxObjectType};
use crate::store::ObjectStore;
use crate::index::{path_lt, path_lt_exec, triples_text};
use crate::text::{chars_view, fields, from_chars, push_char, split_fields, to_chars};

verus! {

/// One line of a directory listing.
#[derive(Debug, Clone)]
pub struct TreeEntry {
    pub entry_type: NyxObjectType,
    pub hash: String,
    pub path: String,
}

/// A directory snapshot: its listing and the subtrees it refers to.
#[derive(Debug)]
pub struct Tree {
    pub hash: String,
    pub entries: Vec<TreeEntry>,
    pub trees: Vec<Tree>,
    pub path: String,
}

/// `"{type} {hash} {name}\n"`.
pub open spec fn entry_line(e: TreeEntry) -> Seq<char> {
    kind_name(e.entry_type) + seq![' '] + e.hash@ + seq![' '] + e.path@ + seq!['\n']
}

/// The stored content of a listing: its lines, in order.
pub open spec fn entries_text(es: Seq<TreeEntry>) -> Seq<char>
    decreases es.len(),
{
    if es.len() == 0 {
        Seq::<char>::empty()
    } else {
        entries_text(es.drop_last()) + entry_line(es.last())
    }
}

/// The listing entries as `(type, hash, name)` triples.
pub open spec fn entry_triple(e: TreeEntry) -> (NyxObjectType, Seq<char>, Seq<char>) {
    (e.entry_type, e.hash@, e.path@)
}

pub open spec fn triples(es: Seq<TreeEntry>) -> Seq<(NyxObjectType, Seq<char>, Seq<char>)> {
    es.map_values(|e: TreeEntry| entry_triple(e))
}

/// How a listing line reads: `None` for a line with fewer than three fields,
/// `Some(None)` for a line of another type, else the entry.
pub open spec fn parse_line(line: Seq<char>) -> Option<Option<(NyxObjectType, Seq<char>, Seq<char>)>> {
    let f = fields(line, ' ');
    if f.len() < 3 {
        None
    } else if f[0] == kind_name(NyxObjectType::Blob) {
        Some(Some((NyxObjectType::Blob, f[1], f[2])))
    } else if f[0] == kind_name(NyxObjectType::Tree) {
        Some(Some((NyxObjectType::Tree, f[1], f[2])))
    } else {
        Some(None)
    }
}

/// The entries of the listing lines `ls`, or `None` if one of them is malformed.
pub open spec fn parse_lines(ls: Seq<Seq<char>>) -> Option<Seq<(NyxObjectType, Seq<char>, Seq<char>)>>
    decreases ls.len(),
{
    if ls.len() == 0 {
        Some(Seq::empty())
    } else {
        match (parse_lines(ls.drop_last()), parse_line(ls.last())) {
            (Some(es), Some(Some(e))) => Some(es.push(e)),
            (Some(es), Some(None)) => Some(es),
            _ => None,
        }
    }
}

/// The entries of a stored listing.
pub open spec fn parse_listing(text: Seq<char>) -> Option<Seq<(NyxObjectType, Seq<char>, Seq<char>)>> {
    parse_lines(fields(text, '\n'))
}

/// `t` is what the store holds under `t.hash`, down to `depth` levels of subtrees:
/// its entries are the stored listing, and each `tree` entry has, at the same
/// position among the tree entries, a subtree read the same way.
pub open spec fn reads_as(store: ObjectStore, t: Tree, depth: nat) -> bool
    decreases depth,
{
    &&& store.read_spec(t.hash@) is Ok
    &&& parse_listing(store.read_spec(t.hash@)->Ok_0) == Some(triples(t.entries@))
    &&& t.trees@.len() == tree_positions(t.entries@).len()
    &&& forall|k: int|
        #![trigger t.trees@[k]]
        0 <= k < t.trees@.len() ==> {
            &&& t.trees@[k].hash@ == t.entries@[tree_positions(t.entries@)[k]].hash@
            &&& t.trees@[k].path@ == t.entries@[tree_positions(t.entries@)[k]].path@
            &&& depth > 0
            &&& reads_as(store, t.trees@[k], (depth - 1) as nat)
        }
}

/// The `k`-th subtree of `t` stands for the `k`-th `tree` entry of its listing
/// and reads as the store holds it, one level less deep.
pub open spec fn subtree_ok(store: ObjectStore, t: Tree, k: int, depth: nat) -> bool {
    &&& t.trees@[k].hash@ == t.entries@[tree_positions(t.entries@)[k]].hash@
    &&& t.trees@[k].path@ == t.entries@[tree_positions(t.entries@)[k]].path@
    &&& depth > 0
    &&& reads_as(store, t.trees@[k], (depth - 1) as nat)
}

proof fn lemma_reads_as_intro(store: ObjectStore, t: Tree, depth: nat)
    requires
        store.read_spec(t.hash@) is Ok,
        parse_listing(store.read_spec(t.hash@)->Ok_0) == Some(triples(t.entries@)),
        t.trees@.len() == tree_positions(t.entries@).len(),
        subtrees_read(store, t, depth),
    ensures
        reads_as(store, t, depth),
{
    assert forall|k: int| 0 <= k < t.trees@.len() implies {
        &&& t.trees@[k].hash@ == t.entries@[tree_positions(t.entries@)[k]].hash@
        &&& t.trees@[k].path@ == t.entries@[tree_positions(t.entries@)[k]].path@
        &&& depth > 0
        &&& reads_as(store, #[trigger] t.trees@[k], (depth - 1) as nat)
    } by {
        assert(subtree_ok(store, t, k, depth));
    }
}

/// Every subtree of `t` is as `subtree_ok` says.
pub open spec fn subtrees_read(store: ObjectStore, t: Tree, depth: nat) -> bool {
    forall|k: int| 0 <= k < t.trees@.len() ==> #[trigger] subtree_ok(store, t, k, depth)
}

/// The store holds an object under the hash of each of the trees `ts` and of
/// every subtree below them, down to `depth` levels.
pub open spec fn stored_from(store: ObjectStore, ts: Seq<Tree>, depth: nat) -> bool
    decreases depth, ts.len(),
{
    if ts.len() == 0 {
        true
    } else {
        &&& stored_from(store, ts.drop_last(), depth)
        &&& depth > 0
        &&& store.get(ts.last().hash@) is Some
        &&& stored_from(store, ts.last().trees@, (depth - 1) as nat)
    }
}

/// The store holds an object under the hash of `t` and of every subtree below
/// it, down to `depth` levels.
pub open spec fn all_stored(store: ObjectStore, t: Tree, depth: nat) -> bool {
    store.get(t.hash@) is Some && stored_from(store, t.trees@, depth)
}

pub(crate) proof fn lemma_stored_keeps(s1: ObjectStore, s2: ObjectStore, ts: Seq<Tree>, depth: nat)
    requires
        stored_from(s1, ts, depth),
        crate::store::keeps(s1, s2),
    ensures
        stored_from(s2, ts, depth),
    decreases depth, ts.len(),
{
    if ts.len() > 0 {
        lemma_stored_keeps(s1, s2, ts.drop_last(), depth);
        lemma_stored_keeps(s1, s2, ts.last().trees@, (depth - 1) as nat);
    }
}

/// Positions of the `tree` entries of a listing.
pub open spec fn tree_positions(es: Seq<TreeEntry>) -> Seq<int>
    decreases es.len(),
{
    if es.len() == 0 {
        Seq::empty()
    } else if es.last().entry_type == NyxObjectType::Tree {
        tree_positions(es.drop_last()).push(es.len() - 1)
    } else {
        tree_positions(es.drop_last())
    }
}

/// The first of `ts` whose hash is `h`.
pub open spec fn first_tree(ts: Seq<Tree>, h: Seq<char>) -> Option<Tree>
    decreases ts.len(),
{
    if ts.len() == 0 {
        None
    } else if ts[0].hash@ == h {
        Some(ts[0])
    } else {
        first_tree(ts.drop_first(), h)
    }
}

pub(crate) proof fn lemma_first_tree_at(ts: Seq<Tree>, h: Seq<char>, i: int)
    requires
        0 <= i <= ts.len(),
        forall|j: int| 0 <= j < i ==> (#[trigger] ts[j]).hash@ != h,
    ensures
        i < ts.len() && ts[i].hash@ == h ==> first_tree(ts, h) == Some(ts[i]),
        i == ts.len() ==> first_tree(ts, h) is None,
    decreases ts.len(),
{
    if ts.len() > 0 && i > 0 {
        assert forall|j: int| 0 <= j < i - 1 implies (#[trigger] ts.drop_first()[j]).hash@ != h by {
            assert(ts.drop_first()[j] == ts[j + 1]);
        }
        lemma_first_tree_at(ts.drop_first(), h, i - 1);
    }
}

proof fn lemma_reads_as_depth(store: ObjectStore, t: Tree, depth: nat)
    requires
        reads_as(store, t, depth),
        t.trees@.len() > 0,
    ensures
        depth > 0,
{
    assert(t.trees@[0].path@ == t.entries@[tree_positions(t.entries@)[0]].path@);
}

pub(crate) proof fn lemma_positions_same(a: Seq<TreeEntry>, b: Seq<TreeEntry>)
    requires
        triples(a) == triples(b),
    ensures
        tree_positions(a) == tree_positions(b),
    decreases a.len(),
{
    assert(a.len() == triples(a).len());
    assert(b.len() == triples(b).len());
    if a.len() > 0 {
        assert(triples(a.drop_last()) == triples(a).drop_last());
        assert(triples(b.drop_last()) == triples(b).drop_last());
        assert(triples(a)[a.len() - 1] == entry_triple(a.last()));
        assert(triples(b)[b.len() - 1] == entry_triple(b.last()));
        lemma_positions_same(a.drop_last(), b.drop_last());
    }
}

proof fn lemma_position_at(es: Seq<TreeEntry>, i: int)
    requires
        0 <= i < es.len(),
        es[i].entry_type == NyxObjectType::Tree,
    ensures
        tree_positions(es.take(i)).len() < tree_positions(es).len(),
        tree_positions(es)[tree_positions(es.take(i)).len() as int] == i,
    decreases es.len(),
{
    if i == es.len() - 1 {
        assert(es.take(i) == es.drop_last());
    } else {
        assert(es.drop_last().take(i) == es.take(i));
        lemma_position_at(es.drop_last(), i);
    }
}

pub(crate) proof fn lemma_first_tree_index(ts: Seq<Tree>, h: Seq<char>)
    ensures
        first_tree(ts, h) matches Some(x) ==> exists|k: int|
            0 <= k < ts.len() && ts[k] == x && ts[k].hash@ == h && forall|j: int|
                0 <= j < k ==> (#[trigger] ts[j]).hash@ != h,
        first_tree(ts, h) is None ==> forall|j: int| 0 <= j < ts.len() ==> (#[trigger] ts[j]).hash@ != h,
    decreases ts.len(),
{
    if ts.len() > 0 {
        lemma_first_tree_index(ts.drop_first(), h);
        if ts[0].hash@ != h {
            if first_tree(ts, h) is Some {
                let k = choose|k: int|
                    0 <= k < ts.drop_first().len() && ts.drop_first()[k] == first_tree(ts, h)->Some_0
                        && ts.drop_first()[k].hash@ == h && forall|j: int|
                        0 <= j < k ==> (#[trigger] ts.drop_first()[j]).hash@ != h;
                assert forall|j: int| 0 <= j < k + 1 implies (#[trigger] ts[j]).hash@ != h by {
                    if j > 0 {
                        assert(ts[j] == ts.drop_first()[j - 1]);
                    }
                }
                assert(ts[k + 1] == ts.drop_first()[k]);
            } else {
                assert forall|j: int| 0 <= j < ts.len() implies (#[trigger] ts[j]).hash@ != h by {
                    if j > 0 {
                        assert(ts[j] == ts.drop_first()[j - 1]);
                    }
                }
            }
        }
    }
}

proof fn lemma_positions_bounded(es: Seq<TreeEntry>)
    ensures
        forall|k: int|
            0 <= k < tree_positions(es).len() ==> 0 <= #[trigger] tree_positions(es)[k] < es.len(),
    decreases es.len(),
{
    if es.len() > 0 {
        lemma_positions_bounded(es.drop_last());
        let p = tree_positions(es.drop_last());
        assert forall|k: int| 0 <= k < tree_positions(es).len() implies 0 <= #[trigger] tree_positions(es)[k] < es.len() by {
            if k < p.len() {
                assert(tree_positions(es)[k] == p[k]);
            }
        }
    }
}

/// Two trees that read as the store holds them under one hash have the same
/// listing, and their subtrees have the same hashes, position by position.
pub(crate) proof fn lemma_same_reading(store: ObjectStore, t1: Tree, t2: Tree, d: nat)
    requires
        reads_as(store, t1, d),
        reads_as(store, t2, d),
        t1.hash@ == t2.hash@,
    ensures
        triples(t1.entries@) == triples(t2.entries@),
        t1.entries@.len() == t2.entries@.len(),
        t1.trees@.len() == t2.trees@.len(),
        forall|j: int| 0 <= j < t1.trees@.len() ==> (#[trigger] t1.trees@[j]).hash@ == t2.trees@[j].hash@,
{
    assert(triples(t1.entries@).len() == t1.entries@.len());
    assert(triples(t2.entries@).len() == t2.entries@.len());
    lemma_positions_same(t1.entries@, t2.entries@);
    lemma_positions_bounded(t1.entries@);
    assert forall|j: int| 0 <= j < t1.trees@.len() implies (#[trigger] t1.trees@[j]).hash@ == t2.trees@[j].hash@ by {
        assert(t1.trees@[j].hash@ == t1.entries@[tree_positions(t1.entries@)[j]].hash@);
        assert(t2.trees@[j].hash@ == t2.entries@[tree_positions(t2.entries@)[j]].hash@);
        let q = tree_positions(t1.entries@)[j];
        assert(triples(t1.entries@)[q] == entry_triple(t1.entries@[q]));
        assert(triples(t2.entries@)[q] == entry_triple(t2.entries@[q]));
    }
}

/// `x` placed into the name-ordered `s`: before the first entry whose name
/// is greater, after entries with a smaller or equal name.
pub open spec fn name_insert(
    s: Seq<(NyxObjectType, Seq<char>, Seq<char>)>,
    x: (NyxObjectType, Seq<char>, Seq<char>),
) -> Seq<(NyxObjectType, Seq<char>, Seq<char>)>
    decreases s.len(),
{
    if s.len() == 0 {
        seq![x]
    } else if path_lt(x.2, s[0].2) {
        seq![x] + s
    } else {
        seq![s[0]] + name_insert(s.drop_first(), x)
    }
}

/// The entries ordered by name (byte-wise), entries with equal names kept in order.
pub open spec fn name_sorted(ts: Seq<(NyxObjectType, Seq<char>, Seq<char>)>) -> Seq<(NyxObjectType, Seq<char>, Seq<char>)>
    decreases ts.len(),
{
    if ts.len() == 0 {
        ts
    } else {
        name_insert(name_sorted(ts.drop_last()), ts.last())
    }
}

proof fn lemma_name_insert_at(
    s: Seq<(NyxObjectType, Seq<char>, Seq<char>)>,
    x: (NyxObjectType, Seq<char>, Seq<char>),
    pos: int,
)
    requires
        0 <= pos <= s.len(),
        forall|j: int| 0 <= j < pos ==> !path_lt(x.2, (#[trigger] s[j]).2),
        pos < s.len() ==> path_lt(x.2, s[pos].2),
    ensures
        name_insert(s, x) == s.insert(pos, x),
    decreases s.len(),
{
    if s.len() == 0 {
        assert(s.insert(pos, x) == seq![x]);
    } else if pos == 0 {
        assert(s.insert(0, x) == seq![x] + s);
    } else {
        assert(!path_lt(x.2, s[0].2));
        assert forall|j: int| 0 <= j < pos - 1 implies !path_lt(x.2, (#[trigger] s.drop_first()[j]).2) by {
            assert(s.drop_first()[j] == s[j + 1]);
        }
        lemma_name_insert_at(s.drop_first(), x, pos - 1);
        assert(s.insert(pos, x) == seq![s[0]] + s.drop_first().insert(pos - 1, x));
    }
}

fn copy_tree_entry(e: &TreeEntry) -> (r: TreeEntry)
    ensures
        entry_triple(r) == entry_triple(*e),
{
    TreeEntry { entry_type: e.entry_type, hash: e.hash.clone(), path: e.path.clone() }
}

impl Tree {
    /// An empty tree with no hash and no path.
    pub fn new() -> (r: Tree)
        ensures
            r.hash@ == Seq::<char>::empty(),
            r.entries@.len() == 0,
            r.trees@.len() == 0,
            r.path@ == Seq::<char>::empty(),
    {
        Tree { hash: String::new(), entries: Vec::new(), trees: Vec::new(), path: String::new() }
    }

    fn add_entry(&mut self, hash: &str, name: &str, entry_type: NyxObjectType)
        ensures
            final(self).entries@ == old(self).entries@.push(
                TreeEntry { entry_type, hash: final(self).entries@.last().hash, path: final(self).entries@.last().path },
            ),
            final(self).entries@.last().hash@ == hash@,
            final(self).entries@.last().path@ == name@,
            final(self).trees == old(self).trees,
            final(self).hash == old(self).hash,
            final(self).path == old(self).path,
    {
        self.entries.push(
            TreeEntry { entry_type, hash: String::from_str(hash), path: String::from_str(name) },
        );
    }

    /// Appends a `blob` entry.
    pub fn add_blob(&mut self, hash: &str, name: &str)
        ensures
            final(self).entries@.len() == old(self).entries@.len() + 1,
            final(self).entries@.drop_last() == old(self).entries@,
            entry_triple(final(self).entries@.last()) == (NyxObjectType::Blob, hash@, name@),
            final(self).trees == old(self).trees,
            final(self).hash == old(self).hash,
            final(self).path == old(self).path,
    {
        self.add_entry(hash, name, NyxObjectType::Blob);
    }

    /// Appends a `tree` entry for `tree` and keeps `tree` as a subtree.
    pub fn add_tree(&mut self, tree: Tree)
        ensures
            final(self).entries@.len() == old(self).entries@.len() + 1,
            final(self).entries@.drop_last() == old(self).entries@,
            entry_triple(final(self).entries@.last()) == (NyxObjectType::Tree, tree.hash@, tree.path@),
            final(self).trees@ == old(self).trees@.push(tree),
            final(self).hash == old(self).hash,
            final(self).path == old(self).path,
    {
        self.add_entry(tree.hash.as_str(), tree.path.as_str(), NyxObjectType::Tree);
        self.trees.push(tree);
    }

    pub fn set_hash(&mut self, hash: &str)
        ensures
            final(self).hash@ == hash@,
            final(self).entries == old(self).entries,
            final(self).trees == old(self).trees,
            final(self).path == old(self).path,
    {
        self.hash = String::from_str(hash);
    }

    pub fn set_path(&mut self, path: &str)
        ensures
            final(self).path@ == path@,
            final(self).entries == old(self).entries,
            final(self).trees == old(self).trees,
            final(self).hash == old(self).hash,
    {
        self.path = String::from_str(path);
    }

    /// The first subtree whose hash is `hash`.
    pub fn get_tree_by_hash(&self, hash: &str) -> (r: Option<&Tree>)
        ensures
            r matches Some(t) ==> first_tree(self.trees@, hash@) == Some(*t),
            r is None ==> first_tree(self.trees@, hash@) is None,
    {
        let h = String::from_str(hash);
        let mut i: usize = 0;
        while i < self.trees.len()
            invariant
                i <= self.trees@.len(),
                h@ == hash@,
                forall|j: int| 0 <= j < i ==> (#[trigger] self.trees@[j]).hash@ != hash@,
            decreases self.trees@.len() - i,
        {
            if self.trees[i].hash == h {
                proof {
                    lemma_first_tree_at(self.trees@, hash@, i as int);
                }
                return Some(&self.trees[i]);
            }
            i = i + 1;
        }
        proof {
            lemma_first_tree_at(self.trees@, hash@, self.trees@.len() as int);
        }
        None
    }

    /// The stored form of the listing: one `"{type} {hash} {name}\n"` line per
    /// entry, ordered by name.
    pub fn content(&self) -> (r: String)
        ensures
            r@ == triples_text(name_sorted(triples(self.entries@))),
    {
        let mut sorted: Vec<TreeEntry> = Vec::new();
        let mut i: usize = 0;
        while i < self.entries.len()
            invariant
                i <= self.entries@.len(),
                triples(sorted@) == name_sorted(triples(self.entries@.take(i as int))),
            decreases self.entries@.len() - i,
        {
            let x = copy_tree_entry(&self.entries[i]);
            let xp = to_chars(x.path.as_str());
            let mut pos: usize = 0;
            while pos < sorted.len() && !path_lt_exec(&xp, &to_chars(sorted[pos].path.as_str()))
                invariant
                    pos <= sorted@.len(),
                    xp@ == x.path@,
                    forall|k: int| 0 <= k < pos ==> !path_lt(x.path@, (#[trigger] sorted@[k]).path@),
                decreases sorted@.len() - pos,
            {
                pos = pos + 1;
            }
            let ghost t = triples(sorted@);
            proof {
                assert forall|j: int| 0 <= j < pos implies !path_lt(entry_triple(x).2, (#[trigger] t[j]).2) by {
                    assert(t[j] == entry_triple(sorted@[j]));
                }
                if pos < sorted@.len() {
                    assert(t[pos as int] == entry_triple(sorted@[pos as int]));
                }
                lemma_name_insert_at(t, entry_triple(x), pos as int);
                assert(triples(self.entries@.take(i + 1)) == triples(self.entries@.take(i as int)).push(
                    entry_triple(self.entries@[i as int]),
                ));
            }
            sorted.insert(pos, x);
            proof {
                assert(triples(sorted@) == t.insert(pos as int, entry_triple(x)));
                assert(triples(self.entries@.take(i + 1)).drop_last() == triples(self.entries@.take(i as int)));
            }
            i = i + 1;
        }
        proof {
            assert(self.entries@.take(self.entries@.len() as int) == self.entries@);
        }
        let mut r = String::new();
        let mut i: usize = 0;
        while i < sorted.len()
            invariant
                i <= sorted@.len(),
                r@ == entries_text(sorted@.take(i as int)),
            decreases sorted@.len() - i,
        {
            let e = &sorted[i];
            let kind = e.entry_type.name();
            r.append(kind.as_str());
            push_char(&mut r, ' ');
            r.append(e.hash.as_str());
            push_char(&mut r, ' ');
            r.append(e.path.as_str());
            push_char(&mut r, '\n');
            proof {
                assert(sorted@.take(i + 1).drop_last() == sorted@.take(i as int));
                assert(r@ == entries_text(sorted@.take(i as int)) + entry_line(sorted@[i as int]));
            }
            i = i + 1;
        }
        proof {
            assert(sorted@.take(sorted@.len() as int) == sorted@);
            crate::index::lemma_entries_text(sorted@);
        }
        r
    }
}

proof fn lemma_parse_lines_prefix(ls: Seq<Seq<char>>, n: int)
    requires
        0 <= n <= ls.len(),
        parse_lines(ls.take(n)) is None,
    ensures
        parse_lines(ls) is None,
    decreases ls.len(),
{
    if n < ls.len() {
        assert(ls.drop_last().take(n) == ls.take(n));
        lemma_parse_lines_prefix(ls.drop_last(), n);
    } else {
        assert(ls.take(n) == ls);
    }
}

/// Parses a stored listing into its entries; `None` when a line is malformed.
pub fn parse_tree_listing(text: &str) -> (r: Option<Vec<TreeEntry>>)
    ensures
        r matches Some(v) ==> parse_listing(text@) == Some(triples(v@)) && forall|j: int|
            0 <= j < v@.len() ==> (#[trigger] v@[j]).entry_type != NyxObjectType::Commit,
        r is None ==> parse_listing(text@) is None,
{
    let chars = to_chars(text);
    let lines = split_fields(&chars, '\n');
    let blob = to_chars("blob");
    let tree = to_chars("tree");
    proof {
        reveal_strlit("blob");
        reveal_strlit("tree");
        assert(blob@ == kind_name(NyxObjectType::Blob));
        assert(tree@ == kind_name(NyxObjectType::Tree));
    }
    let ghost ls = chars_view(lines@);
    let mut out: Vec<TreeEntry> = Vec::new();
    let mut i: usize = 0;
    while i < lines.len()
        invariant
            i <= lines@.len(),
            ls == chars_view(lines@),
            ls == fields(text@, '\n'),
            blob@ == kind_name(NyxObjectType::Blob),
            tree@ == kind_name(NyxObjectType::Tree),
            parse_lines(ls.take(i as int)) == Some(triples(out@)),
            forall|j: int|
                0 <= j < out@.len() ==> (#[trigger] out@[j]).entry_type != NyxObjectType::Commit,
        decreases lines@.len() - i,
    {
        proof {
            assert(ls.take(i + 1).drop_last() == ls.take(i as int));
            assert(ls.take(i + 1).last() == lines@[i as int]@);
        }
        let f = split_fields(&lines[i], ' ');
        if f.len() < 3 {
            proof {
                lemma_parse_lines_prefix(ls, i + 1);
            }
            return None;
        }
        let ghost fv = chars_view(f@);
        proof {
            assert(fv[0] == f@[0]@ && fv[1] == f@[1]@ && fv[2] == f@[2]@);
        }
        let is_blob = crate::text::chars_eq(&f[0], &blob);
        let is_tree = crate::text::chars_eq(&f[0], &tree);
        if is_blob || is_tree {
            let ghost before = out@;
            let e = TreeEntry {
                entry_type: if is_blob { NyxObjectType::Blob } else { NyxObjectType::Tree },
                hash: from_chars(f[1].as_slice()),
                path: from_chars(f[2].as_slice()),
            };
            out.push(e);
            proof {
                assert(triples(out@) == triples(before).push(entry_triple(e)));
            }
        }
        i = i + 1;
    }
    proof {
        assert(ls.take(ls.len() as int) == ls);
    }
    Some(out)
}

impl Tree {
    /// Reads the tree stored under `hash`, with all its subtrees.
    pub fn from_hash(hash: &str, store: &ObjectStore) -> (r: Result<Tree, NyxError>)
        ensures
            r matches Ok(t) ==> t.hash@ == hash@ && t.path@ == seq!['.'] && reads_as(*store, t, store.size()),
            r is Err ==> forall|t: Tree| t.hash@ == hash@ ==> !reads_as(*store, t, store.size()),
            store.read_spec(hash@) matches Err(e) ==> r == Err::<Tree, NyxError>(e),
            store.read_spec(hash@) matches Ok(text) ==> parse_listing(text) is None ==> r
                == Err::<Tree, NyxError>(NyxError::EncodingError),
    {
        let dot = String::from_str(".");
        proof {
            reveal_strlit(".");
        }
        Tree::from_hash_recursive(hash, dot.as_str(), store, store.len())
    }

    fn from_hash_recursive(hash: &str, dir_name: &str, store: &ObjectStore, depth: usize) -> (r:
        Result<Tree, NyxError>)
        ensures
            r matches Ok(t) ==> t.hash@ == hash@ && t.path@ == dir_name@ && reads_as(
                *store,
                t,
                depth as nat,
            ),
            r is Err ==> forall|t: Tree| t.hash@ == hash@ ==> !reads_as(*store, t, depth as nat),
            store.read_spec(hash@) matches Err(e) ==> r == Err::<Tree, NyxError>(e),
            store.read_spec(hash@) matches Ok(text) ==> parse_listing(text) is None ==> r
                == Err::<Tree, NyxError>(NyxError::EncodingError),
        decreases depth,
    {
        let content = match store.read(hash) {
            Ok(c) => c,
            Err(e) => return Err(e),
        };
        let es = match parse_tree_listing(content.as_str()) {
            Some(es) => es,
            None => return Err(NyxError::EncodingError),
        };
        let ghost text = content@;
        let mut tree = Tree::new();
        tree.set_hash(hash);
        tree.set_path(dir_name);
        let mut i: usize = 0;
        while i < es.len()
            invariant
                i <= es@.len(),
                tree.hash@ == hash@,
                tree.path@ == dir_name@,
                store.read_spec(hash@) == Ok::<Seq<char>, NyxError>(text),
                parse_listing(text) == Some(triples(es@)),
                forall|j: int|
                    0 <= j < es@.len() ==> (#[trigger] es@[j]).entry_type != NyxObjectType::Commit,
                triples(tree.entries@) == triples(es@.take(i as int)),
                tree.trees@.len() == tree_positions(tree.entries@).len(),
                subtrees_read(*store, tree, depth as nat),
                forall|k: int|
                    0 <= k < tree_positions(tree.entries@).len() ==> 0 <= #[trigger] tree_positions(
                        tree.entries@,
                    )[k] < tree.entries@.len(),
            decreases es@.len() - i,
        {
            let ghost old_entries = tree.entries@;
            let ghost old_trees = tree.trees@;
            let ghost old_tree = tree;
            proof {
                assert(es@.take(i + 1) == es@.take(i as int).push(es@[i as int]));
                assert(triples(es@.take(i + 1)) == triples(es@.take(i as int)).push(entry_triple(es@[i as int])));
            }
            if es[i].entry_type == NyxObjectType::Blob {
                tree.add_blob(es[i].hash.as_str(), es[i].path.as_str());
                proof {
                    assert(tree.entries@.drop_last() == old_entries);
                    assert(tree_positions(tree.entries@) == tree_positions(old_entries));
                    assert(triples(tree.entries@) == triples(old_entries).push(entry_triple(tree.entries@.last())));
                    assert forall|k: int| 0 <= k < tree_positions(tree.entries@).len() implies
                        tree.entries@[#[trigger] tree_positions(tree.entries@)[k]] == old_entries[tree_positions(old_entries)[k]] by {
                    }
                    assert(subtrees_read(*store, old_tree, depth as nat));
                    assert(tree.trees@ == old_tree.trees@);
                    assert(tree_positions(tree.entries@) == tree_positions(old_tree.entries@));
                    assert(subtrees_read(*store, tree, depth as nat)) by {
                        assert forall|k: int| 0 <= k < tree.trees@.len() implies #[trigger] subtree_ok(
                            *store,
                            tree,
                            k,
                            depth as nat,
                        ) by {
                            assert(subtree_ok(*store, old_tree, k, depth as nat));
                            assert(old_tree.trees@[k] == tree.trees@[k]);
                            assert(0 <= tree_positions(old_entries)[k] < old_entries.len());
                            assert(tree.entries@[tree_positions(tree.entries@)[k]]
                                == old_tree.entries@[tree_positions(old_tree.entries@)[k]]);
                        }
                    }
                }
                i = i + 1;
                continue;
            } else {
                if depth == 0 {
                    proof {
                        assert forall|t: Tree| t.hash@ == hash@ implies !reads_as(*store, t, depth as nat) by {
                            if reads_as(*store, t, depth as nat) {
                                lemma_positions_same(t.entries@, es@);
                                assert(triples(t.entries@).len() == t.entries@.len());
                                assert(triples(es@).len() == es@.len());
                                assert(es@[i as int].entry_type != NyxObjectType::Commit);
                                assert(triples(t.entries@)[i as int] == entry_triple(t.entries@[i as int]));
                                assert(triples(es@)[i as int] == entry_triple(es@[i as int]));
                                assert(t.entries@[i as int].entry_type == NyxObjectType::Tree);
                                lemma_position_at(t.entries@, i as int);
                                let k = tree_positions(t.entries@.take(i as int)).len() as int;
                                assert(t.trees@.len() == tree_positions(t.entries@).len());
                                assert(0 <= k < t.trees@.len());
                                lemma_reads_as_depth(*store, t, depth as nat);
                            }
                        }
                    }
                    return Err(NyxError::EncodingError);
                }
                let sub = match Tree::from_hash_recursive(
                    es[i].hash.as_str(),
                    es[i].path.as_str(),
                    store,
                    depth - 1,
                ) {
                    Ok(t) => t,
                    Err(e) => {
                        proof {
                            assert forall|t: Tree| t.hash@ == hash@ implies !reads_as(*store, t, depth as nat) by {
                                if reads_as(*store, t, depth as nat) {
                                    lemma_positions_same(t.entries@, es@);
                                    assert(triples(t.entries@).len() == t.entries@.len());
                                    assert(triples(es@).len() == es@.len());
                                    assert(es@[i as int].entry_type != NyxObjectType::Commit);
                                    assert(triples(t.entries@)[i as int] == entry_triple(t.entries@[i as int]));
                                    assert(triples(es@)[i as int] == entry_triple(es@[i as int]));
                                    assert(t.entries@[i as int].entry_type == NyxObjectType::Tree);
                                    lemma_position_at(t.entries@, i as int);
                                    let k = tree_positions(t.entries@.take(i as int)).len() as int;
                                    assert(t.trees@.len() == tree_positions(t.entries@).len());
                                    assert(0 <= k < t.trees@.len());
                                    assert(t.trees@[k].hash@ == es@[i as int].hash@);
                                    assert(reads_as(*store, t.trees@[k], (depth - 1) as nat));
                                }
                            }
                        }
                        return Err(e);
                    },
                };
                tree.add_tree(sub);
                proof {
                    assert(tree.entries@.drop_last() == old_entries);
                    assert(tree_positions(tree.entries@) == tree_positions(old_entries).push(
                        old_entries.len() as int,
                    ));
                    assert(triples(tree.entries@) == triples(old_entries).push(entry_triple(tree.entries@.last())));
                    assert forall|k: int| 0 <= k < tree_positions(old_entries).len() implies
                        tree.entries@[#[trigger] tree_positions(tree.entries@)[k]] == old_entries[tree_positions(old_entries)[k]] by {
                    }
                    assert(tree.trees@[old_trees.len() as int] == sub);
                    assert(tree_positions(tree.entries@)[old_trees.len() as int] == old_entries.len());
                    assert(tree.entries@[old_entries.len() as int].hash@ == sub.hash@);
                    assert(tree.entries@[old_entries.len() as int].path@ == sub.path@);
                    assert forall|k: int| 0 <= k < old_trees.len() implies #[trigger] tree.trees@[k]
                        == old_trees[k] by {
                    }
                    assert(subtrees_read(*store, tree, depth as nat)) by {
                        assert forall|k: int| 0 <= k < tree.trees@.len() implies #[trigger] subtree_ok(
                            *store,
                            tree,
                            k,
                            depth as nat,
                        ) by {
                            if k < old_trees.len() {
                                assert(subtree_ok(*store, old_tree, k, depth as nat));
                                assert(tree.trees@[k] == old_trees[k]);
                                assert(tree_positions(tree.entries@)[k] == tree_positions(old_entries)[k]);
                                assert(0 <= tree_positions(old_entries)[k] < old_entries.len());
                            }
                        }
                    }
                }
            }
            i = i + 1;
        }
        proof {
            assert(es@.take(es@.len() as int) == es@);
            assert(subtrees_read(*store, tree, depth as nat));
            assert(store.read_spec(tree.hash@) is Ok);
            assert(parse_listing(store.read_spec(tree.hash@)->Ok_0) == Some(triples(tree.entries@)));
            assert(tree.trees@.len() == tree_positions(tree.entries@).len());
            lemma_reads_as_intro(*store, tree, depth as nat);
        }
        Ok(tree)
    }
}

} // verus!
