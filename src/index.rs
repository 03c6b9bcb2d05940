//! The staging index: a path-keyed ledger of staged file hashes.
use vstd::prelude::*;
use crate::errors::NyxError;
use crate::object::object_hash_of;
use crate::object_type::{kind_name, NyxObjectType};
use crate::object::frame;
use crate::store::{keeps, ObjectStore};
use crate::tree::{all_stored, stored_from, entries_text, entry_triple, tree_positions, triples, Tree, TreeEntry};
use vstd::utf8::encode_utf8;
use crate::text::{chars_view, fields, from_chars, push_char, split_fields, to_chars};

verus! {

/// Lifecycle state of a staged file.
#[derive(Debug, Clone, Copy, PartialEq, Eq, Structural)]
pub enum NyxFileState {
    Invalid,
    Unstaged,
    Staged,
    Modified,
    Committed,
}

/// The state a ledger code stands for; unknown codes are `Invalid`.
pub open spec fn state_of_code(u: nat) -> NyxFileState {
    if u == 1 {
        NyxFileState::Unstaged
    } else if u == 2 {
        NyxFileState::Staged
    } else if u == 3 {
        NyxFileState::Modified
    } else if u == 4 {
        NyxFileState::Committed
    } else {
        NyxFileState::Invalid
    }
}

/// The ledger code of a state.
pub open spec fn code_of(s: NyxFileState) -> u8 {
    match s {
        NyxFileState::Invalid => 0,
        NyxFileState::Unstaged => 1,
        NyxFileState::Staged => 2,
        NyxFileState::Modified => 3,
        NyxFileState::Committed => 4,
    }
}

impl NyxFileState {
    /// The state of a ledger code; codes other than 1 to 4 give `Invalid`.
    pub fn from_u8(u: u8) -> (r: NyxFileState)
        ensures
            r == state_of_code(u as nat),
    {
        match u {
            1 => NyxFileState::Unstaged,
            2 => NyxFileState::Staged,
            3 => NyxFileState::Modified,
            4 => NyxFileState::Committed,
            _ => NyxFileState::Invalid,
        }
    }

    /// The ledger code of the state.
    pub fn code(&self) -> (r: u8)
        ensures
            r == code_of(*self),
            state_of_code(r as nat) == *self,
    {
        match self {
            NyxFileState::Invalid => 0,
            NyxFileState::Unstaged => 1,
            NyxFileState::Staged => 2,
            NyxFileState::Modified => 3,
            NyxFileState::Committed => 4,
        }
    }
}

/// One staged file: content hash, path relative to the repository root, state.
#[derive(Debug)]
pub struct IndexEntry {
    pub hash: String,
    pub path: String,
    pub state: NyxFileState,
}

impl IndexEntry {
    /// True when the path lies in a subdirectory.
    pub fn has_dir(&self) -> (r: bool)
        ensures
            r == self.path@.contains('/'),
    {
        let p = to_chars(self.path.as_str());
        crate::text::find_char(&p, '/').is_some()
    }

    /// The ledger line of the entry, without its newline: `"{hash} {path} {code}"`.
    pub fn line(&self) -> (r: String)
        ensures
            r@ == ledger_line(entry_view(*self)),
    {
        let mut r = self.hash.clone();
        push_char(&mut r, ' ');
        r.append(self.path.as_str());
        push_char(&mut r, ' ');
        push_char(&mut r, digit_char(self.state.code()));
        r
    }
}

fn digit_char(d: u8) -> (r: char)
    requires
        d < 10,
    ensures
        r == digit(d as nat),
{
    match d {
        0 => '0',
        1 => '1',
        2 => '2',
        3 => '3',
        4 => '4',
        5 => '5',
        6 => '6',
        7 => '7',
        8 => '8',
        _ => '9',
    }
}

pub open spec fn digit(d: nat) -> char {
    seq!['0', '1', '2', '3', '4', '5', '6', '7', '8', '9'][d as int]
}

pub open spec fn ledger_line(e: EntryView) -> Seq<char> {
    e.0 + seq![' '] + e.1 + seq![' ', digit(code_of(e.2) as nat)]
}

/// The ledger text: one line per entry, each ended by a newline.
pub open spec fn ledger_text(es: Seq<EntryView>) -> Seq<char>
    decreases es.len(),
{
    if es.len() == 0 {
        Seq::<char>::empty()
    } else {
        ledger_text(es.drop_last()) + ledger_line(es.last()) + seq!['\n']
    }
}

/// Value of a decimal digit character.
pub open spec fn digit_value(c: char) -> Option<nat> {
    if '0' <= c && c <= '9' {
        Some((c as nat - '0' as nat) as nat)
    } else {
        None
    }
}

/// Value of a string of decimal digits, `None` if another character occurs.
pub open spec fn decimal_value(s: Seq<char>) -> Option<nat>
    decreases s.len(),
{
    if s.len() == 0 {
        Some(0)
    } else {
        match (decimal_value(s.drop_last()), digit_value(s.last())) {
            (Some(v), Some(d)) => Some(v * 10 + d),
            _ => None,
        }
    }
}

/// The state a ledger state field stands for.
pub open spec fn state_of_field(s: Seq<char>) -> NyxFileState {
    match decimal_value(s) {
        Some(v) => state_of_code(v),
        None => NyxFileState::Invalid,
    }
}

/// The entry a ledger line stands for: hash, path and the state its code
/// gives (`Invalid` when the code is missing or unknown); `None` for a line of
/// fewer than two fields.
pub open spec fn parse_ledger_line(line: Seq<char>) -> Option<EntryView> {
    let f = fields(line, ' ');
    if f.len() < 2 {
        None
    } else if f.len() == 2 {
        Some((f[0], f[1], NyxFileState::Invalid))
    } else {
        Some((f[0], f[1], state_of_field(f[2])))
    }
}

/// The entries of the ledger lines `ls`, in order.
pub open spec fn parse_ledger_lines(ls: Seq<Seq<char>>) -> Seq<EntryView>
    decreases ls.len(),
{
    if ls.len() == 0 {
        Seq::empty()
    } else {
        match parse_ledger_line(ls.last()) {
            Some(e) => parse_ledger_lines(ls.drop_last()).push(e),
            None => parse_ledger_lines(ls.drop_last()),
        }
    }
}

/// An entry as `(hash, path, state)`.
pub type EntryView = (Seq<char>, Seq<char>, NyxFileState);

pub open spec fn entry_view(e: IndexEntry) -> EntryView {
    (e.hash@, e.path@, e.state)
}

pub open spec fn entries_view(es: Seq<IndexEntry>) -> Seq<EntryView> {
    es.map_values(|e: IndexEntry| entry_view(e))
}

/// `es` without the entries whose path is `p`.
pub open spec fn without_path(es: Seq<EntryView>, p: Seq<char>) -> Seq<EntryView>
    decreases es.len(),
{
    if es.len() == 0 {
        es
    } else if es.last().1 == p {
        without_path(es.drop_last(), p)
    } else {
        without_path(es.drop_last(), p).push(es.last())
    }
}

/// The entries of `es` whose path is `p`.
pub open spec fn with_path(es: Seq<EntryView>, p: Seq<char>) -> Seq<EntryView>
    decreases es.len(),
{
    if es.len() == 0 {
        es
    } else if es.last().1 == p {
        with_path(es.drop_last(), p).push(es.last())
    } else {
        with_path(es.drop_last(), p)
    }
}

pub open spec fn has_hash(es: Seq<EntryView>, h: Seq<char>) -> bool {
    exists|i: int| 0 <= i < es.len() && (#[trigger] es[i]).0 == h
}

pub open spec fn has_path(es: Seq<EntryView>, p: Seq<char>) -> bool {
    exists|i: int| 0 <= i < es.len() && (#[trigger] es[i]).1 == p
}

/// Some entry that is not `Invalid` carries hash `h`.
pub open spec fn has_live_hash(es: Seq<EntryView>, h: Seq<char>) -> bool {
    exists|i: int| 0 <= i < es.len() && (#[trigger] es[i]).0 == h && es[i].2 != NyxFileState::Invalid
}

/// Some entry that is not `Invalid` has path `p`.
pub open spec fn has_live_path(es: Seq<EntryView>, p: Seq<char>) -> bool {
    exists|i: int| 0 <= i < es.len() && (#[trigger] es[i]).1 == p && es[i].2 != NyxFileState::Invalid
}

/// State of the first entry whose hash is `h`.
pub open spec fn first_state_with_hash(es: Seq<EntryView>, h: Seq<char>) -> NyxFileState
    decreases es.len(),
{
    if es.len() == 0 {
        NyxFileState::Invalid
    } else if es[0].0 == h {
        es[0].2
    } else {
        first_state_with_hash(es.drop_first(), h)
    }
}

/// How a file with content hash `h` at path `p` stands against the entries:
/// the state of the first entry with that hash; else `Modified` when the path
/// is staged with another hash; else `Unstaged`.
pub open spec fn status_of(es: Seq<EntryView>, h: Seq<char>, p: Seq<char>) -> NyxFileState {
    if has_hash(es, h) {
        first_state_with_hash(es, h)
    } else if has_path(es, p) {
        NyxFileState::Modified
    } else {
        NyxFileState::Unstaged
    }
}

/// The entries after staging hash `h` at path `p`: unchanged when some entry
/// already has hash `h`; else every entry for `p` is replaced by one new
/// `Staged` entry at the end.
pub open spec fn added(es: Seq<EntryView>, h: Seq<char>, p: Seq<char>) -> Seq<EntryView> {
    if has_hash(es, h) {
        es
    } else {
        without_path(es, p).push((h, p, NyxFileState::Staged))
    }
}

/// The staging area.
pub struct Index {
    entries: Vec<IndexEntry>,
}

/// A staged file as `(hash, path)`, the input of tree building.
pub type Leaf = (Seq<char>, Seq<char>);

/// The part of `p` before its first `/` (all of `p` when there is none).
pub open spec fn dir_of(p: Seq<char>) -> Seq<char>
    decreases p.len(),
{
    if p.len() == 0 || p[0] == '/' {
        Seq::<char>::empty()
    } else {
        seq![p[0]] + dir_of(p.drop_first())
    }
}

/// `p` starts with `d/`.
pub open spec fn in_dir(p: Seq<char>, d: Seq<char>) -> bool {
    p.len() > d.len() && p.take(d.len() as int) == d && p[d.len() as int] == '/'
}

/// `l` with the leading `d/` taken off its path.
pub open spec fn strip_dir(l: Leaf, d: Seq<char>) -> Leaf {
    (l.0, l.1.skip(d.len() + 1 as int))
}

/// Number of leading leaves of `es` that lie in directory `d`.
pub open spec fn run_len(es: Seq<Leaf>, d: Seq<char>) -> nat
    decreases es.len(),
{
    if es.len() > 0 && in_dir(es[0].1, d) {
        1 + run_len(es.drop_first(), d)
    } else {
        0
    }
}

/// One member of a directory level: a file, or a subdirectory with its leaves
/// (their paths relative to it).
pub enum Group {
    File(Seq<char>, Seq<char>),
    Dir(Seq<char>, Seq<Leaf>),
}

/// The members of the directory level that the sorted leaves `es` describe:
/// a leaf without `/` is a file; a leaf with one starts a subdirectory named by
/// the part before its first `/`, which takes it and every leaf right after it
/// under the same name.
pub open spec fn groups(es: Seq<Leaf>) -> Seq<Group>
    decreases es.len(),
{
    if es.len() == 0 {
        Seq::empty()
    } else if es[0].1.contains('/') {
        let d = dir_of(es[0].1);
        let m = 1 + run_len(es.drop_first(), d);
        let n = if m <= es.len() { m } else { es.len() };
        seq![Group::Dir(d, es.take(n as int).map_values(|l: Leaf| strip_dir(l, d)))] + groups(
            es.skip(n as int),
        )
    } else {
        seq![Group::File(es[0].0, es[0].1)] + groups(es.skip(1))
    }
}

/// A listing line as `(type, hash, name)`.
pub type Triple = (NyxObjectType, Seq<char>, Seq<char>);

pub open spec fn triple_line(t: Triple) -> Seq<char> {
    kind_name(t.0) + seq![' '] + t.1 + seq![' '] + t.2 + seq!['\n']
}

pub open spec fn triples_text(ts: Seq<Triple>) -> Seq<char>
    decreases ts.len(),
{
    if ts.len() == 0 {
        Seq::<char>::empty()
    } else {
        triples_text(ts.drop_last()) + triple_line(ts.last())
    }
}

/// The digest of a listing, stored with its lines ordered by name.
pub open spec fn listing_hash(ts: Seq<Triple>) -> Seq<char> {
    object_hash_of(NyxObjectType::Tree, encode_utf8(triples_text(crate::tree::name_sorted(ts))))
}

/// The listing of a directory level: a `blob` line per file, and a `tree` line
/// per subdirectory carrying the digest of the subdirectory's own listing.
/// `fuel` bounds the depth.
pub open spec fn level(gs: Seq<Group>, fuel: nat) -> Seq<Triple>
    decreases fuel, gs.len(),
{
    if gs.len() == 0 {
        Seq::empty()
    } else {
        let rest = level(gs.drop_last(), fuel);
        match gs.last() {
            Group::File(h, n) => rest.push((NyxObjectType::Blob, h, n)),
            Group::Dir(n, ch) => rest.push(
                (
                    NyxObjectType::Tree,
                    if fuel > 0 {
                        listing_hash(level(groups(ch), (fuel - 1) as nat))
                    } else {
                        Seq::<char>::empty()
                    },
                    n,
                ),
            ),
        }
    }
}

/// The digest of the tree built from the sorted leaves `es`.
pub open spec fn tree_hash(es: Seq<Leaf>, fuel: nat) -> Seq<char> {
    listing_hash(level(groups(es), fuel))
}

/// One more than the longest path among the leaves.
pub open spec fn path_bound(es: Seq<Leaf>) -> nat
    decreases es.len(),
{
    if es.len() == 0 {
        0
    } else {
        let b = path_bound(es.drop_last());
        if es.last().1.len() + 1 > b {
            es.last().1.len() + 1
        } else {
            b
        }
    }
}

pub proof fn lemma_path_bound(es: Seq<Leaf>)
    ensures
        forall|i: int| 0 <= i < es.len() ==> (#[trigger] es[i]).1.len() < path_bound(es),
    decreases es.len(),
{
    if es.len() > 0 {
        lemma_path_bound(es.drop_last());
        assert forall|i: int| 0 <= i < es.len() implies (#[trigger] es[i]).1.len() < path_bound(es) by {
            if i < es.len() - 1 {
                assert(es[i] == es.drop_last()[i]);
            }
        }
    }
}

proof fn lemma_dir_of(p: Seq<char>, k: int)
    requires
        0 <= k < p.len(),
        p[k] == '/',
        !p.take(k).contains('/'),
    ensures
        dir_of(p) == p.take(k),
        in_dir(p, dir_of(p)),
    decreases k,
{
    if k > 0 {
        assert(p.take(k)[0] == p[0]);
        assert(p.drop_first().take(k - 1) == p.take(k).drop_first());
        if p.drop_first().take(k - 1).contains('/') {
            let w = choose|w: int| 0 <= w < k - 1 && #[trigger] p.drop_first().take(k - 1)[w] == '/';
            assert(p.take(k)[w + 1] == '/');
        }
        lemma_dir_of(p.drop_first(), k - 1);
        assert(seq![p[0]] + p.drop_first().take(k - 1) == p.take(k));
    }
}

pub(crate) proof fn lemma_entries_text(es: Seq<TreeEntry>)
    ensures
        entries_text(es) == triples_text(triples(es)),
    decreases es.len(),
{
    if es.len() > 0 {
        lemma_entries_text(es.drop_last());
        assert(triples(es).drop_last() == triples(es.drop_last()));
    }
}

proof fn lemma_none_left(es: Seq<EntryView>, p: Seq<char>)
    ensures
        with_path(without_path(es, p), p) == Seq::<EntryView>::empty(),
    decreases es.len(),
{
    if es.len() > 0 {
        lemma_none_left(es.drop_last(), p);
        if es.last().1 != p {
            let w = without_path(es.drop_last(), p);
            assert(w.push(es.last()).drop_last() == w);
        }
    }
}

/// Replace semantics: staging path `p` with hash `h1` and then with hash `h2`
/// leaves exactly one entry for `p`, with hash `h2` and state `Staged`, unless
/// `h2` was already carried by an entry (then the second call changes nothing).
pub proof fn lemma_replace_semantics(es: Seq<EntryView>, p: Seq<char>, h1: Seq<char>, h2: Seq<char>)
    requires
        !has_hash(added(es, h1, p), h2),
    ensures
        with_path(added(added(es, h1, p), h2, p), p) == seq![(h2, p, NyxFileState::Staged)],
{
    let e1 = added(es, h1, p);
    let w = without_path(e1, p);
    lemma_none_left(e1, p);
    assert(w.push((h2, p, NyxFileState::Staged)).drop_last() == w);
    assert(with_path(w, p).push((h2, p, NyxFileState::Staged)) == seq![(h2, p, NyxFileState::Staged)]);
}

fn copy_entry(e: &IndexEntry) -> (r: IndexEntry)
    ensures
        r == *e,
{
    IndexEntry { hash: e.hash.clone(), path: e.path.clone(), state: e.state }
}

/// The state a ledger state field stands for, computed with the value capped above 4.
fn state_of_chars(f: &Vec<char>) -> (r: NyxFileState)
    ensures
        r == state_of_field(f@),
{
    let mut acc: u8 = 0;
    let mut i: usize = 0;
    while i < f.len()
        invariant
            i <= f@.len(),
            decimal_value(f@.take(i as int)) matches Some(v) ==> acc as nat == if v > 5 { 5 } else { v },
            decimal_value(f@.take(i as int)) is Some,
            acc <= 5,
        decreases f@.len() - i,
    {
        proof {
            assert(f@.take(i + 1).drop_last() == f@.take(i as int));
        }
        let c = f[i];
        if !('0' <= c && c <= '9') {
            proof {
                lemma_decimal_none_extends(f@, i as int + 1);
            }
            return NyxFileState::Invalid;
        }
        let d = (c as u32 - '0' as u32) as u8;
        let next: u32 = acc as u32 * 10 + d as u32;
        acc = if next > 5 { 5 } else { next as u8 };
        i = i + 1;
    }
    proof {
        assert(f@.take(f@.len() as int) == f@);
    }
    NyxFileState::from_u8(acc)
}

proof fn lemma_decimal_none_extends(s: Seq<char>, n: int)
    requires
        0 <= n <= s.len(),
        decimal_value(s.take(n)) is None,
    ensures
        decimal_value(s) is None,
    decreases s.len(),
{
    if n < s.len() {
        assert(s.drop_last().take(n) == s.take(n));
        lemma_decimal_none_extends(s.drop_last(), n);
    } else {
        assert(s.take(n) == s);
    }
}

impl View for Index {
    type V = Seq<EntryView>;

    closed spec fn view(&self) -> Seq<EntryView> {
        entries_view(self.entries@)
    }
}

impl Index {
    /// The index that a ledger text describes: one entry per line of at least
    /// two space-separated fields (hash, path, state code); a missing or
    /// unknown state code gives `Invalid`, and lines of fewer fields are skipped.
    pub fn new(ledger: &str) -> (r: Index)
        ensures
            r@ == parse_ledger_lines(fields(ledger@, '\n')),
    {
        let chars = to_chars(ledger);
        let lines = split_fields(&chars, '\n');
        let ghost ls = chars_view(lines@);
        let mut entries: Vec<IndexEntry> = Vec::new();
        let mut i: usize = 0;
        while i < lines.len()
            invariant
                i <= lines@.len(),
                ls == chars_view(lines@),
                entries_view(entries@) == parse_ledger_lines(ls.take(i as int)),
            decreases lines@.len() - i,
        {
            proof {
                assert(ls.take(i + 1).drop_last() == ls.take(i as int));
                assert(ls.take(i + 1).last() == lines@[i as int]@);
            }
            let f = split_fields(&lines[i], ' ');
            if f.len() >= 2 {
                let ghost fv = chars_view(f@);
                proof {
                    assert(fv[0] == f@[0]@ && fv[1] == f@[1]@);
                    if f@.len() >= 3 {
                        assert(fv[2] == f@[2]@);
                    }
                }
                let ghost before = entries@;
                let state = if f.len() >= 3 { state_of_chars(&f[2]) } else { NyxFileState::Invalid };
                let e = IndexEntry {
                    hash: from_chars(f[0].as_slice()),
                    path: from_chars(f[1].as_slice()),
                    state,
                };
                entries.push(e);
                proof {
                    assert(entries_view(entries@) == entries_view(before).push(entry_view(e)));
                }
            }
            i = i + 1;
        }
        proof {
            assert(ls.take(ls.len() as int) == ls);
        }
        Index { entries }
    }

    /// Number of entries.
    pub fn len(&self) -> (r: usize)
        ensures
            r == self@.len(),
    {
        self.entries.len()
    }

    /// The `i`-th entry.
    pub fn entry(&self, i: usize) -> (r: &IndexEntry)
        requires
            i < self@.len(),
        ensures
            entry_view(*r) == self@[i as int],
    {
        &self.entries[i]
    }

    /// True when an entry that is not `Invalid` carries `hash`.
    pub fn has_live_hash(&self, hash: &String) -> (r: bool)
        ensures
            r == has_live_hash(self@, hash@),
    {
        let mut i: usize = 0;
        while i < self.entries.len()
            invariant
                i <= self.entries@.len(),
                forall|j: int|
                    0 <= j < i ==> !((#[trigger] self@[j]).0 == hash@ && self@[j].2 != NyxFileState::Invalid),
            decreases self.entries@.len() - i,
        {
            proof {
                assert(self@[i as int] == entry_view(self.entries@[i as int]));
            }
            if self.entries[i].hash == *hash && self.entries[i].state != NyxFileState::Invalid {
                return true;
            }
            i = i + 1;
        }
        false
    }

    /// True when an entry that is not `Invalid` has path `path`.
    pub fn has_live_path(&self, path: &String) -> (r: bool)
        ensures
            r == has_live_path(self@, path@),
    {
        let mut i: usize = 0;
        while i < self.entries.len()
            invariant
                i <= self.entries@.len(),
                forall|j: int|
                    0 <= j < i ==> !((#[trigger] self@[j]).1 == path@ && self@[j].2 != NyxFileState::Invalid),
            decreases self.entries@.len() - i,
        {
            proof {
                assert(self@[i as int] == entry_view(self.entries@[i as int]));
            }
            if self.entries[i].path == *path && self.entries[i].state != NyxFileState::Invalid {
                return true;
            }
            i = i + 1;
        }
        false
    }

    /// True when an entry carries `hash`.
    pub fn contains_hash(&self, hash: &String) -> (r: bool)
        ensures
            r == has_hash(self@, hash@),
    {
        let mut i: usize = 0;
        while i < self.entries.len()
            invariant
                i <= self.entries@.len(),
                forall|j: int| 0 <= j < i ==> (#[trigger] self.entries@[j]).hash@ != hash@,
            decreases self.entries@.len() - i,
        {
            if self.entries[i].hash == *hash {
                proof {
                    assert(self@[i as int].0 == hash@);
                }
                return true;
            }
            i = i + 1;
        }
        proof {
            assert forall|j: int| 0 <= j < self@.len() implies (#[trigger] self@[j]).0 != hash@ by {
                assert(self@[j] == entry_view(self.entries@[j]));
            }
        }
        false
    }

    /// Stages `hash` at `path`. Nothing changes when an entry already carries
    /// this hash; otherwise every entry for `path` is replaced by one `Staged`
    /// entry at the end.
    pub fn add(&mut self, hash: &str, path: &str) -> (r: Result<(), NyxError>)
        ensures
            r is Ok,
            final(self)@ == added(old(self)@, hash@, path@),
    {
        let h = String::from_str(hash);
        let p = String::from_str(path);
        if self.contains_hash(&h) {
            return Ok(());
        }
        let mut kept: Vec<IndexEntry> = Vec::new();
        let mut i: usize = 0;
        while i < self.entries.len()
            invariant
                i <= self.entries@.len(),
                p@ == path@,
                entries_view(kept@) == without_path(entries_view(self.entries@.take(i as int)), path@),
            decreases self.entries@.len() - i,
        {
            proof {
                assert(entries_view(self.entries@.take(i + 1)).drop_last() == entries_view(
                    self.entries@.take(i as int),
                ));
                assert(entries_view(self.entries@.take(i + 1)).last() == entry_view(
                    self.entries@[i as int],
                ));
            }
            if self.entries[i].path != p {
                let ghost before = kept@;
                let e = copy_entry(&self.entries[i]);
                kept.push(e);
                proof {
                    assert(entries_view(kept@) == entries_view(before).push(entry_view(e)));
                }
            }
            i = i + 1;
        }
        proof {
            assert(self.entries@.take(self.entries@.len() as int) == self.entries@);
        }
        let ghost before = kept@;
        let e = IndexEntry { hash: h, path: p, state: NyxFileState::Staged };
        kept.push(e);
        proof {
            assert(entries_view(kept@) == entries_view(before).push(entry_view(e)));
        }
        self.entries = kept;
        Ok(())
    }

    /// How the file with content hash `hash` at `path` stands against the index.
    pub fn get_status(&self, hash: &str, path: &str) -> (r: NyxFileState)
        ensures
            r == status_of(self@, hash@, path@),
    {
        let h = String::from_str(hash);
        let p = String::from_str(path);
        let mut i: usize = 0;
        proof {
            assert(self@.skip(0) == self@);
        }
        while i < self.entries.len()
            invariant
                i <= self.entries@.len(),
                h@ == hash@,
                forall|j: int| 0 <= j < i ==> (#[trigger] self.entries@[j]).hash@ != hash@,
                first_state_with_hash(self@, hash@) == first_state_with_hash(self@.skip(i as int), hash@),
            decreases self.entries@.len() - i,
        {
            proof {
                assert(self@.skip(i as int).drop_first() == self@.skip(i + 1));
                assert(self@.skip(i as int)[0] == entry_view(self.entries@[i as int]));
            }
            if self.entries[i].hash == h {
                proof {
                    assert(self@[i as int].0 == hash@);
                }
                return self.entries[i].state;
            }
            i = i + 1;
        }
        proof {
            assert forall|j: int| 0 <= j < self@.len() implies (#[trigger] self@[j]).0 != hash@ by {
                assert(self@[j] == entry_view(self.entries@[j]));
            }
        }
        let mut k: usize = 0;
        while k < self.entries.len()
            invariant
                k <= self.entries@.len(),
                p@ == path@,
                !has_hash(self@, hash@),
                forall|j: int| 0 <= j < k ==> (#[trigger] self.entries@[j]).path@ != path@,
            decreases self.entries@.len() - k,
        {
            if self.entries[k].path == p {
                proof {
                    assert(self@[k as int].1 == path@);
                }
                return NyxFileState::Modified;
            }
            k = k + 1;
        }
        proof {
            assert forall|j: int| 0 <= j < self@.len() implies (#[trigger] self@[j]).1 != path@ by {
                assert(self@[j] == entry_view(self.entries@[j]));
            }
        }
        NyxFileState::Unstaged
    }

    /// The ledger text of the index: one `"{hash} {path} {code}\n"` line per entry.
    pub fn ledger(&self) -> (r: String)
        ensures
            r@ == ledger_text(self@),
    {
        let mut r = String::new();
        let mut i: usize = 0;
        while i < self.entries.len()
            invariant
                i <= self.entries@.len(),
                r@ == ledger_text(entries_view(self.entries@.take(i as int))),
            decreases self.entries@.len() - i,
        {
            proof {
                assert(entries_view(self.entries@.take(i + 1)).drop_last() == entries_view(
                    self.entries@.take(i as int),
                ));
            }
            let line = self.entries[i].line();
            r.append(line.as_str());
            push_char(&mut r, '\n');
            i = i + 1;
        }
        proof {
            assert(self.entries@.take(self.entries@.len() as int) == self.entries@);
        }
        r
    }
}

/// Byte-wise lexicographic order on paths (code point order, which UTF-8 keeps).
pub open spec fn path_lt(a: Seq<char>, b: Seq<char>) -> bool
    decreases a.len(),
{
    if a.len() == 0 {
        b.len() > 0
    } else if b.len() == 0 {
        false
    } else if a[0] != b[0] {
        (a[0] as u32) < (b[0] as u32)
    } else {
        path_lt(a.drop_first(), b.drop_first())
    }
}

/// The entries are in path order.
pub open spec fn sorted_by_path(es: Seq<EntryView>) -> bool {
    forall|i: int, j: int| 0 <= i < j < es.len() ==> !path_lt(#[trigger] es[j].1, #[trigger] es[i].1)
}

/// The entries with every state set to `Committed`.
pub open spec fn committed(es: Seq<EntryView>) -> Seq<EntryView> {
    es.map_values(|e: EntryView| (e.0, e.1, NyxFileState::Committed))
}

/// The entries as `(hash, path)` leaves.
pub open spec fn leaves(es: Seq<EntryView>) -> Seq<Leaf> {
    es.map_values(|e: EntryView| (e.0, e.1))
}

/// Building is deterministic: index entries with the same `(hash, path)`
/// sequence give the same tree listing and the same tree hash.
pub proof fn lemma_tree_determinism(a: Seq<EntryView>, b: Seq<EntryView>)
    requires
        leaves(a) == leaves(b),
    ensures
        level(groups(leaves(a)), path_bound(leaves(a))) == level(groups(leaves(b)), path_bound(leaves(b))),
        tree_hash(leaves(a), path_bound(leaves(a))) == tree_hash(leaves(b), path_bound(leaves(b))),
{
}

/// No two entries share a path.
pub open spec fn unique_paths(es: Seq<EntryView>) -> bool {
    forall|i: int, j: int| 0 <= i < j < es.len() ==> (#[trigger] es[i]).1 != (#[trigger] es[j]).1
}

proof fn lemma_path_lt_total(a: Seq<char>, b: Seq<char>)
    ensures
        a != b ==> path_lt(a, b) || path_lt(b, a),
    decreases a.len(),
{
    if a.len() > 0 && b.len() > 0 {
        if a[0] != b[0] {
            vstd::utf8::char_u32_cast(a[0], a[0] as u32);
            vstd::utf8::char_u32_cast(b[0], b[0] as u32);
        } else {
            lemma_path_lt_total(a.drop_first(), b.drop_first());
            if a.drop_first() == b.drop_first() {
                assert(a == seq![a[0]] + a.drop_first());
                assert(b == seq![b[0]] + b.drop_first());
            }
        }
    } else if a.len() == 0 && b.len() == 0 {
        assert(a == b);
    }
}

proof fn lemma_sorted_permutation_unique(a: Seq<EntryView>, b: Seq<EntryView>)
    requires
        sorted_by_path(a),
        sorted_by_path(b),
        a.to_multiset() == b.to_multiset(),
        unique_paths(a),
    ensures
        a == b,
    decreases a.len(),
{
    broadcast use vstd::seq_lib::to_multiset_len, vstd::seq_lib::to_multiset_contains;

    assert(a.to_multiset().len() == a.len());
    assert(b.to_multiset().len() == b.len());
    if a.len() > 0 {
        assert(a.to_multiset().count(a[0]) > 0);
        assert(b.contains(a[0]));
        let j = choose|j: int| 0 <= j < b.len() && b[j] == a[0];
        assert(b.to_multiset().count(b[0]) > 0);
        assert(a.contains(b[0]));
        let k = choose|k: int| 0 <= k < a.len() && a[k] == b[0];
        if a[0].1 != b[0].1 {
            lemma_path_lt_total(a[0].1, b[0].1);
            assert(k != 0);
            assert(!path_lt(a[k].1, a[0].1));
            assert(j != 0);
            assert(!path_lt(b[j].1, b[0].1));
        }
        assert(k == 0);
        assert(a[0] == b[0]);
        vstd::seq_lib::to_multiset_remove(a, 0);
        vstd::seq_lib::to_multiset_remove(b, 0);
        assert(a.remove(0) == a.drop_first());
        assert(b.remove(0) == b.drop_first());
        assert(sorted_by_path(a.drop_first())) by {
            assert forall|x: int, y: int| 0 <= x < y < a.drop_first().len() implies !path_lt(
                #[trigger] a.drop_first()[y].1,
                #[trigger] a.drop_first()[x].1,
            ) by {
                assert(a.drop_first()[y] == a[y + 1] && a.drop_first()[x] == a[x + 1]);
            }
        }
        assert(sorted_by_path(b.drop_first())) by {
            assert forall|x: int, y: int| 0 <= x < y < b.drop_first().len() implies !path_lt(
                #[trigger] b.drop_first()[y].1,
                #[trigger] b.drop_first()[x].1,
            ) by {
                assert(b.drop_first()[y] == b[y + 1] && b.drop_first()[x] == b[x + 1]);
            }
        }
        assert(unique_paths(a.drop_first())) by {
            assert forall|x: int, y: int| 0 <= x < y < a.drop_first().len() implies (
            #[trigger] a.drop_first()[x]).1 != (#[trigger] a.drop_first()[y]).1 by {
                assert(a.drop_first()[y] == a[y + 1] && a.drop_first()[x] == a[x + 1]);
            }
        }
        lemma_sorted_permutation_unique(a.drop_first(), b.drop_first());
        assert(a == seq![a[0]] + a.drop_first());
        assert(b == seq![b[0]] + b.drop_first());
    }
}

/// Order does not matter: two indexes that hold the same entries, with no
/// path twice, are in the same order once sorted by path, and so build the
/// same tree with the same hash.
pub proof fn lemma_tree_order_independent(a: Seq<EntryView>, b: Seq<EntryView>)
    requires
        sorted_by_path(a),
        sorted_by_path(b),
        a.to_multiset() == b.to_multiset(),
        unique_paths(a),
    ensures
        tree_hash(leaves(a), path_bound(leaves(a))) == tree_hash(leaves(b), path_bound(leaves(b))),
{
    lemma_sorted_permutation_unique(a, b);
}

proof fn lemma_dir_of_in_dir(p: Seq<char>)
    requires
        p.contains('/'),
    ensures
        in_dir(p, dir_of(p)),
    decreases p.len(),
{
    if p[0] != '/' {
        let t = p.drop_first();
        assert(t.contains('/')) by {
            let i = choose|i: int| 0 <= i < p.len() && #[trigger] p[i] == '/';
            assert(t[i - 1] == '/');
        }
        lemma_dir_of_in_dir(t);
        let d = dir_of(t);
        assert(p.take(d.len() + 1 as int) == seq![p[0]] + t.take(d.len() as int));
        assert(dir_of(p) == seq![p[0]] + d);
        assert(p[d.len() + 1 as int] == t[d.len() as int]);
    } else {
        assert(dir_of(p) == Seq::<char>::empty());
        assert(p.take(0) == Seq::<char>::empty());
    }
}

proof fn lemma_run_in_dir(es: Seq<Leaf>, d: Seq<char>, k: int)
    requires
        0 <= k < run_len(es, d),
    ensures
        run_len(es, d) <= es.len(),
        in_dir(es[k].1, d),
    decreases es.len(),
{
    if k > 0 {
        lemma_run_in_dir(es.drop_first(), d, k - 1);
    } else if es.drop_first().len() > 0 && run_len(es.drop_first(), d) > 0 {
        lemma_run_in_dir(es.drop_first(), d, 0);
    }
    lemma_run_len_bound(es, d);
}

proof fn lemma_run_len_bound(es: Seq<Leaf>, d: Seq<char>)
    ensures
        run_len(es, d) <= es.len(),
    decreases es.len(),
{
    if es.len() > 0 {
        lemma_run_len_bound(es.drop_first(), d);
    }
}

/// Every subdirectory among `gs` has leaves with paths shorter than `f - 1`.
pub open spec fn dirs_bounded(gs: Seq<Group>, f: nat) -> bool {
    forall|k: int|
        0 <= k < gs.len() ==> match #[trigger] gs[k] {
            Group::Dir(_, ch) => f > 0 && forall|t: int| 0 <= t < ch.len() ==> (#[trigger] ch[t]).1.len() + 1 < f,
            Group::File(_, _) => true,
        }
}

proof fn lemma_groups_bounded(es: Seq<Leaf>, f: nat)
    requires
        forall|i: int| 0 <= i < es.len() ==> (#[trigger] es[i]).1.len() < f,
    ensures
        dirs_bounded(groups(es), f),
    decreases es.len(),
{
    if es.len() > 0 {
        if es[0].1.contains('/') {
            let d = dir_of(es[0].1);
            let m = 1 + run_len(es.drop_first(), d);
            lemma_run_len_bound(es.drop_first(), d);
            let n = m;
            let ch = es.take(n as int).map_values(|l: Leaf| strip_dir(l, d));
            lemma_dir_of_in_dir(es[0].1);
            assert forall|t: int| 0 <= t < ch.len() implies (#[trigger] ch[t]).1.len() + 1 < f by {
                if t > 0 {
                    lemma_run_in_dir(es.drop_first(), d, t - 1);
                    assert(es.drop_first()[t - 1] == es[t]);
                }
                assert(ch[t] == strip_dir(es[t], d));
            }
            let rest = es.skip(n as int);
            assert forall|i: int| 0 <= i < rest.len() implies (#[trigger] rest[i]).1.len() < f by {
                assert(rest[i] == es[i + n]);
            }
            lemma_groups_bounded(rest, f);
            let gs = groups(es);
            assert(gs == seq![Group::Dir(d, ch)] + groups(rest));
            assert forall|k: int| 0 <= k < gs.len() implies match #[trigger] gs[k] {
                Group::Dir(_, c) => f > 0 && forall|t: int| 0 <= t < c.len() ==> (#[trigger] c[t]).1.len() + 1 < f,
                Group::File(_, _) => true,
            } by {
                if k > 0 {
                    assert(gs[k] == groups(rest)[k - 1]);
                }
            }
        } else {
            let rest = es.skip(1);
            assert forall|i: int| 0 <= i < rest.len() implies (#[trigger] rest[i]).1.len() < f by {
                assert(rest[i] == es[i + 1]);
            }
            lemma_groups_bounded(rest, f);
            let gs = groups(es);
            assert forall|k: int| 0 <= k < gs.len() implies match #[trigger] gs[k] {
                Group::Dir(_, c) => f > 0 && forall|t: int| 0 <= t < c.len() ==> (#[trigger] c[t]).1.len() + 1 < f,
                Group::File(_, _) => true,
            } by {
                if k > 0 {
                    assert(gs[k] == groups(rest)[k - 1]);
                }
            }
        }
    }
}

proof fn lemma_level_fuel(gs: Seq<Group>, f1: nat, f2: nat)
    requires
        dirs_bounded(gs, f1),
        dirs_bounded(gs, f2),
    ensures
        level(gs, f1) == level(gs, f2),
    decreases f1, gs.len(),
{
    if gs.len() > 0 {
        assert forall|k: int| 0 <= k < gs.drop_last().len() implies match #[trigger] gs.drop_last()[k] {
            Group::Dir(_, c) => f1 > 0 && forall|t: int| 0 <= t < c.len() ==> (#[trigger] c[t]).1.len() + 1 < f1,
            Group::File(_, _) => true,
        } by {
            assert(gs.drop_last()[k] == gs[k]);
        }
        assert forall|k: int| 0 <= k < gs.drop_last().len() implies match #[trigger] gs.drop_last()[k] {
            Group::Dir(_, c) => f2 > 0 && forall|t: int| 0 <= t < c.len() ==> (#[trigger] c[t]).1.len() + 1 < f2,
            Group::File(_, _) => true,
        } by {
            assert(gs.drop_last()[k] == gs[k]);
        }
        lemma_level_fuel(gs.drop_last(), f1, f2);
        let last = gs[gs.len() - 1];
        if let Group::Dir(_, ch) = last {
            assert(gs.last() == last);
            assert forall|i: int| 0 <= i < ch.len() implies (#[trigger] ch[i]).1.len() < (f1 - 1) as nat by {}
            assert forall|i: int| 0 <= i < ch.len() implies (#[trigger] ch[i]).1.len() < (f2 - 1) as nat by {}
            lemma_groups_bounded(ch, (f1 - 1) as nat);
            lemma_groups_bounded(ch, (f2 - 1) as nat);
            lemma_level_fuel(groups(ch), (f1 - 1) as nat, (f2 - 1) as nat);
        }
    }
}

/// A directory's hash depends on its own leaves alone, not on where it
/// stands: any two depth bounds above the length of its paths give the same
/// listing and hash. So two directories with the same names and contents at
/// every level have the same tree hash under any parent.
pub proof fn lemma_tree_hash_location_free(es: Seq<Leaf>, f1: nat, f2: nat)
    requires
        forall|i: int| 0 <= i < es.len() ==> (#[trigger] es[i]).1.len() < f1,
        forall|i: int| 0 <= i < es.len() ==> (#[trigger] es[i]).1.len() < f2,
    ensures
        level(groups(es), f1) == level(groups(es), f2),
        tree_hash(es, f1) == tree_hash(es, f2),
{
    lemma_groups_bounded(es, f1);
    lemma_groups_bounded(es, f2);
    lemma_level_fuel(groups(es), f1, f2);
}

/// A listing line that reads back unchanged: a `blob` or `tree` line whose
/// hash and name are non-empty and hold no space or newline.
pub open spec fn plain_triple(t: Triple) -> bool {
    &&& (t.0 == NyxObjectType::Blob || t.0 == NyxObjectType::Tree)
    &&& t.1.len() > 0 && !t.1.contains(' ') && !t.1.contains('\n')
    &&& t.2.len() > 0 && !t.2.contains(' ') && !t.2.contains('\n')
}

pub open spec fn triple_body(t: Triple) -> Seq<char> {
    kind_name(t.0) + seq![' '] + t.1 + seq![' '] + t.2
}

proof fn lemma_no_char_in(s: Seq<char>, c: char)
    requires
        forall|i: int| 0 <= i < s.len() ==> s[i] != c,
    ensures
        !s.contains(c),
{
}

proof fn lemma_body_fields(t: Triple)
    requires
        plain_triple(t),
    ensures
        !triple_body(t).contains('\n'),
        triple_body(t).len() > 0,
        crate::tree::parse_line(triple_body(t)) == Some(Some(t)),
{
    let k = kind_name(t.0);
    lemma_no_char_in(k, ' ');
    lemma_no_char_in(k, '\n');
    let b = triple_body(t);
    assert(!b.contains('\n')) by {
        if b.contains('\n') {
            let i = choose|i: int| 0 <= i < b.len() && #[trigger] b[i] == '\n';
            if i < k.len() + 1 {
                assert(b[i] == (k + seq![' '])[i]);
            } else if i < k.len() + 1 + t.1.len() {
                assert(b[i] == t.1[i - k.len() - 1]);
            } else if i < k.len() + 2 + t.1.len() {
                assert(b[i] == ' ');
            } else {
                assert(b[i] == t.2[i - k.len() - 2 - t.1.len()]);
            }
        }
    }
    assert(b == k + seq![' '] + (t.1 + seq![' '] + t.2));
    crate::text::lemma_split_concat(k, t.1 + seq![' '] + t.2, ' ');
    crate::text::lemma_split_concat(t.1, t.2, ' ');
    crate::text::lemma_split_single(t.2, ' ');
    let ps = seq![k] + (seq![t.1] + seq![t.2]);
    assert(ps == seq![k, t.1, t.2]);
    crate::text::lemma_non_empty_all(ps);
    assert(kind_name(NyxObjectType::Blob) != kind_name(NyxObjectType::Tree)) by {
        assert(kind_name(NyxObjectType::Blob)[0] != kind_name(NyxObjectType::Tree)[0]);
    }
}

pub open spec fn bodies(ts: Seq<Triple>) -> Seq<Seq<char>> {
    ts.map_values(|t: Triple| triple_body(t))
}

proof fn lemma_listing_lines(ts: Seq<Triple>)
    requires
        forall|i: int| 0 <= i < ts.len() ==> plain_triple(#[trigger] ts[i]),
    ensures
        crate::text::split_on(triples_text(ts), '\n') == bodies(ts).push(Seq::<char>::empty()),
        crate::tree::parse_lines(bodies(ts)) == Some(ts),
    decreases ts.len(),
{
    if ts.len() == 0 {
        assert(bodies(ts).push(Seq::<char>::empty()) == seq![Seq::<char>::empty()]);
    } else {
        let rest = ts.drop_last();
        let t = ts.last();
        assert forall|i: int| 0 <= i < rest.len() implies plain_triple(#[trigger] rest[i]) by {
            assert(rest[i] == ts[i]);
        }
        lemma_listing_lines(rest);
        lemma_body_fields(t);
        let x = triples_text(rest);
        let b = triple_body(t);
        assert(triple_line(t) == b + seq!['\n'] + Seq::<char>::empty());
        assert(triples_text(ts) == x + triple_line(t));
        if rest.len() > 0 {
            assert(x.last() == '\n');
        }
        crate::text::lemma_split_append(x, triple_line(t), '\n');
        crate::text::lemma_split_concat(b, Seq::<char>::empty(), '\n');
        assert(bodies(ts) == bodies(rest).push(b));
        assert(bodies(ts).drop_last() == bodies(rest));
        assert(crate::text::split_on(Seq::<char>::empty(), '\n') == seq![Seq::<char>::empty()]);
        assert(bodies(rest).push(Seq::<char>::empty()).drop_last() + (seq![b] + seq![Seq::<char>::empty()])
            == bodies(ts).push(Seq::<char>::empty()));
    }
}

/// Tree round trip, one level at a time: a listing text parses back to
/// exactly the entries it was written from, in the order written (the store
/// holds each level's entries ordered by name), when each line is a
/// `blob` or `tree` line with a non-empty hash and name free of spaces and
/// newlines. Reading a tree back (`Tree::from_hash`) relies on this at every
/// level, so the leaves read back are the leaves built.
pub proof fn lemma_listing_round_trip(ts: Seq<Triple>)
    requires
        forall|i: int| 0 <= i < ts.len() ==> plain_triple(#[trigger] ts[i]),
    ensures
        crate::tree::parse_listing(triples_text(ts)) == Some(ts),
{
    lemma_listing_lines(ts);
    crate::text::lemma_non_empty_concat(bodies(ts), seq![Seq::<char>::empty()]);
    assert forall|i: int| 0 <= i < bodies(ts).len() implies (#[trigger] bodies(ts)[i]).len() > 0 by {
        lemma_body_fields(ts[i]);
    }
    crate::text::lemma_non_empty_all(bodies(ts));
    assert(bodies(ts).push(Seq::<char>::empty()) == bodies(ts) + seq![Seq::<char>::empty()]);
    reveal_with_fuel(crate::text::non_empty, 2);
    assert(crate::text::non_empty(seq![Seq::<char>::empty()]) == Seq::<Seq<char>>::empty()) by {
        assert(seq![Seq::<char>::empty()].drop_last() == Seq::<Seq<char>>::empty());
    }
    assert(bodies(ts) + Seq::<Seq<char>>::empty() == bodies(ts));
}

/// Leaves placed under directory `d`.
pub open spec fn prefixed(ls: Seq<Leaf>, d: Seq<char>) -> Seq<Leaf> {
    ls.map_values(|l: Leaf| (l.0, d + seq!['/'] + l.1))
}

/// The leaves a directory member stands for, paths relative to the level.
pub open spec fn member_leaves(g: Group) -> Seq<Leaf> {
    match g {
        Group::File(h, n) => seq![(h, n)],
        Group::Dir(d, ch) => prefixed(ch, d),
    }
}

/// The leaves of a level's members, in order.
pub open spec fn flat(gs: Seq<Group>) -> Seq<Leaf>
    decreases gs.len(),
{
    if gs.len() == 0 {
        Seq::empty()
    } else {
        flat(gs.drop_last()) + member_leaves(gs.last())
    }
}

/// The leaves of the tree built from a level's members: files as they are,
/// subdirectories expanded through their own trees. `fuel` bounds the depth.
pub open spec fn group_leaves(gs: Seq<Group>, fuel: nat) -> Seq<Leaf>
    decreases fuel, gs.len(),
{
    if gs.len() == 0 {
        Seq::empty()
    } else {
        let rest = group_leaves(gs.drop_last(), fuel);
        match gs.last() {
            Group::File(h, n) => rest.push((h, n)),
            Group::Dir(d, ch) => rest + if fuel > 0 {
                prefixed(group_leaves(groups(ch), (fuel - 1) as nat), d)
            } else {
                Seq::empty()
            },
        }
    }
}

proof fn lemma_flat_cons(g: Group, gs: Seq<Group>)
    ensures
        flat(seq![g] + gs) == member_leaves(g) + flat(gs),
    decreases gs.len(),
{
    if gs.len() == 0 {
        assert(seq![g] + gs == seq![g]);
        assert(seq![g].drop_last() == Seq::<Group>::empty());
        assert(member_leaves(g) + Seq::<Leaf>::empty() == member_leaves(g));
        assert(Seq::<Leaf>::empty() + member_leaves(g) == member_leaves(g));
        assert(seq![g].last() == g);
        assert(flat(seq![g]) == flat(Seq::<Group>::empty()) + member_leaves(g));
    } else {
        assert((seq![g] + gs).drop_last() == seq![g] + gs.drop_last());
        assert((seq![g] + gs).last() == gs.last());
        lemma_flat_cons(g, gs.drop_last());
        assert(member_leaves(g) + flat(gs.drop_last()) + member_leaves(gs.last()) == member_leaves(g) + (
        flat(gs.drop_last()) + member_leaves(gs.last())));
    }
}

proof fn lemma_flat_groups(es: Seq<Leaf>)
    ensures
        flat(groups(es)) == es,
    decreases es.len(),
{
    if es.len() > 0 {
        if es[0].1.contains('/') {
            let d = dir_of(es[0].1);
            let m = 1 + run_len(es.drop_first(), d);
            lemma_run_len_bound(es.drop_first(), d);
            let n = m;
            let ch = es.take(n as int).map_values(|l: Leaf| strip_dir(l, d));
            lemma_dir_of_in_dir(es[0].1);
            assert(prefixed(ch, d) == es.take(n as int)) by {
                assert forall|t: int| 0 <= t < n implies #[trigger] prefixed(ch, d)[t] == es.take(n as int)[t] by {
                    if t > 0 {
                        lemma_run_in_dir(es.drop_first(), d, t - 1);
                        assert(es.drop_first()[t - 1] == es[t]);
                    }
                    let p = es[t].1;
                    assert(d + seq!['/'] + p.skip(d.len() + 1 as int) == p) by {
                        assert(p == p.take(d.len() as int) + seq![p[d.len() as int]] + p.skip(d.len() + 1 as int));
                    }
                }
            }
            lemma_flat_cons(Group::Dir(d, ch), groups(es.skip(n as int)));
            lemma_flat_groups(es.skip(n as int));
            assert(es.take(n as int) + es.skip(n as int) == es);
        } else {
            lemma_flat_cons(Group::File(es[0].0, es[0].1), groups(es.skip(1)));
            lemma_flat_groups(es.skip(1));
            assert(seq![(es[0].0, es[0].1)] + es.skip(1) == es);
        }
    }
}

proof fn lemma_group_leaves(gs: Seq<Group>, f: nat)
    requires
        dirs_bounded(gs, f),
    ensures
        group_leaves(gs, f) == flat(gs),
    decreases f, 0nat, gs.len(),
{
    if gs.len() > 0 {
        assert forall|k: int| 0 <= k < gs.drop_last().len() implies match #[trigger] gs.drop_last()[k] {
            Group::Dir(_, c) => f > 0 && forall|t: int| 0 <= t < c.len() ==> (#[trigger] c[t]).1.len() + 1 < f,
            Group::File(_, _) => true,
        } by {
            assert(gs.drop_last()[k] == gs[k]);
        }
        lemma_group_leaves(gs.drop_last(), f);
        let last = gs[gs.len() - 1];
        assert(gs.last() == last);
        if let Group::Dir(_, ch) = last {
            assert forall|i: int| 0 <= i < ch.len() implies (#[trigger] ch[i]).1.len() < (f - 1) as nat by {}
            lemma_built_leaves(ch, (f - 1) as nat);
        }
    }
}

proof fn lemma_built_leaves(es: Seq<Leaf>, f: nat)
    requires
        forall|i: int| 0 <= i < es.len() ==> (#[trigger] es[i]).1.len() < f,
    ensures
        group_leaves(groups(es), f) == es,
    decreases f, 1nat, 0nat,
{
    lemma_groups_bounded(es, f);
    lemma_group_leaves(groups(es), f);
    lemma_flat_groups(es);
}

/// The tree built from the sorted leaves `es` has exactly `es` as its leaves:
/// each file once, in order, its path rebuilt from the names of the
/// directories that hold it.
pub proof fn lemma_tree_leaves(es: Seq<Leaf>)
    ensures
        group_leaves(groups(es), path_bound(es)) == es,
{
    lemma_path_bound(es);
    lemma_built_leaves(es, path_bound(es));
}

/// An entry that its ledger line stores unchanged: hash and path are
/// non-empty and hold no space or newline.
pub open spec fn plain_entry(e: EntryView) -> bool {
    &&& e.0.len() > 0 && !e.0.contains(' ') && !e.0.contains('\n')
    &&& e.1.len() > 0 && !e.1.contains(' ') && !e.1.contains('\n')
}

proof fn lemma_state_field(s: NyxFileState)
    ensures
        state_of_field(seq![digit(code_of(s) as nat)]) == s,
{
    let d = digit(code_of(s) as nat);
    assert(seq![d].drop_last() == Seq::<char>::empty());
    assert(seq![d].last() == d);
    reveal_with_fuel(decimal_value, 2);
    match s {
        NyxFileState::Invalid => assert(d == '0'),
        NyxFileState::Unstaged => assert(d == '1'),
        NyxFileState::Staged => assert(d == '2'),
        NyxFileState::Modified => assert(d == '3'),
        NyxFileState::Committed => assert(d == '4'),
    }
}

proof fn lemma_ledger_line_fields(e: EntryView)
    requires
        plain_entry(e),
    ensures
        !ledger_line(e).contains('\n'),
        ledger_line(e).len() > 0,
        parse_ledger_line(ledger_line(e)) == Some(e),
{
    let d = digit(code_of(e.2) as nat);
    let b = ledger_line(e);
    assert(b == e.0 + seq![' '] + (e.1 + seq![' '] + seq![d]));
    assert(d != '\n' && d != ' ') by {
        lemma_state_field(e.2);
        match e.2 {
            NyxFileState::Invalid => assert(d == '0'),
            NyxFileState::Unstaged => assert(d == '1'),
            NyxFileState::Staged => assert(d == '2'),
            NyxFileState::Modified => assert(d == '3'),
            NyxFileState::Committed => assert(d == '4'),
        }
    }
    assert(!b.contains('\n')) by {
        if b.contains('\n') {
            let i = choose|i: int| 0 <= i < b.len() && #[trigger] b[i] == '\n';
            if i < e.0.len() {
                assert(b[i] == e.0[i]);
            } else if i < e.0.len() + 1 {
                assert(b[i] == ' ');
            } else if i < e.0.len() + 1 + e.1.len() {
                assert(b[i] == e.1[i - e.0.len() - 1]);
            } else if i < e.0.len() + 2 + e.1.len() {
                assert(b[i] == ' ');
            } else {
                assert(b[i] == d);
            }
        }
    }
    crate::text::lemma_split_concat(e.0, e.1 + seq![' '] + seq![d], ' ');
    crate::text::lemma_split_concat(e.1, seq![d], ' ');
    assert(!seq![d].contains(' ')) by {
        if seq![d].contains(' ') {
            assert(seq![d][0] == d);
        }
    }
    crate::text::lemma_split_single(seq![d], ' ');
    let ps = seq![e.0] + (seq![e.1] + seq![seq![d]]);
    assert(ps == seq![e.0, e.1, seq![d]]);
    crate::text::lemma_non_empty_all(ps);
    lemma_state_field(e.2);
}

pub open spec fn ledger_bodies(es: Seq<EntryView>) -> Seq<Seq<char>> {
    es.map_values(|e: EntryView| ledger_line(e))
}

proof fn lemma_ledger_lines(es: Seq<EntryView>)
    requires
        forall|i: int| 0 <= i < es.len() ==> plain_entry(#[trigger] es[i]),
    ensures
        crate::text::split_on(ledger_text(es), '\n') == ledger_bodies(es).push(Seq::<char>::empty()),
        parse_ledger_lines(ledger_bodies(es)) == es,
    decreases es.len(),
{
    if es.len() == 0 {
        assert(ledger_bodies(es).push(Seq::<char>::empty()) == seq![Seq::<char>::empty()]);
    } else {
        let rest = es.drop_last();
        let e = es.last();
        assert forall|i: int| 0 <= i < rest.len() implies plain_entry(#[trigger] rest[i]) by {
            assert(rest[i] == es[i]);
        }
        lemma_ledger_lines(rest);
        lemma_ledger_line_fields(e);
        let x = ledger_text(rest);
        let b = ledger_line(e);
        assert(ledger_text(es) == x + (b + seq!['\n'] + Seq::<char>::empty()));
        if rest.len() > 0 {
            assert(x.last() == '\n');
        }
        crate::text::lemma_split_append(x, b + seq!['\n'] + Seq::<char>::empty(), '\n');
        crate::text::lemma_split_concat(b, Seq::<char>::empty(), '\n');
        assert(ledger_bodies(es) == ledger_bodies(rest).push(b));
        assert(ledger_bodies(es).drop_last() == ledger_bodies(rest));
        assert(crate::text::split_on(Seq::<char>::empty(), '\n') == seq![Seq::<char>::empty()]);
        assert(ledger_bodies(rest).push(Seq::<char>::empty()).drop_last() + (seq![b] + seq![Seq::<char>::empty()])
            == ledger_bodies(es).push(Seq::<char>::empty()));
        assert(rest.push(e) == es);
    }
}

/// Ledger round trip: the index read back from the ledger text it writes has
/// the same entries, in order, when hashes and paths are non-empty and hold
/// no space or newline.
pub proof fn lemma_ledger_round_trip(es: Seq<EntryView>)
    requires
        forall|i: int| 0 <= i < es.len() ==> plain_entry(#[trigger] es[i]),
    ensures
        parse_ledger_lines(fields(ledger_text(es), '\n')) == es,
{
    lemma_ledger_lines(es);
    crate::text::lemma_non_empty_concat(ledger_bodies(es), seq![Seq::<char>::empty()]);
    assert forall|i: int| 0 <= i < ledger_bodies(es).len() implies (#[trigger] ledger_bodies(es)[i]).len() > 0 by {
        lemma_ledger_line_fields(es[i]);
    }
    crate::text::lemma_non_empty_all(ledger_bodies(es));
    assert(ledger_bodies(es).push(Seq::<char>::empty()) == ledger_bodies(es) + seq![Seq::<char>::empty()]);
    reveal_with_fuel(crate::text::non_empty, 2);
    assert(crate::text::non_empty(seq![Seq::<char>::empty()]) == Seq::<Seq<char>>::empty()) by {
        assert(seq![Seq::<char>::empty()].drop_last() == Seq::<Seq<char>>::empty());
    }
    assert(ledger_bodies(es) + Seq::<Seq<char>>::empty() == ledger_bodies(es));
}

proof fn lemma_path_lt_asym(a: Seq<char>, b: Seq<char>)
    ensures
        path_lt(a, b) ==> !path_lt(b, a),
    decreases a.len(),
{
    if a.len() > 0 && b.len() > 0 && a[0] == b[0] {
        lemma_path_lt_asym(a.drop_first(), b.drop_first());
    }
}

proof fn lemma_path_lt_trans(a: Seq<char>, b: Seq<char>, c: Seq<char>)
    ensures
        path_lt(a, b) && path_lt(b, c) ==> path_lt(a, c),
    decreases a.len(),
{
    if a.len() > 0 && b.len() > 0 && c.len() > 0 {
        lemma_path_lt_trans(a.drop_first(), b.drop_first(), c.drop_first());
    }
}

pub(crate) fn path_lt_exec(a: &Vec<char>, b: &Vec<char>) -> (r: bool)
    ensures
        r == path_lt(a@, b@),
{
    let mut i: usize = 0;
    proof {
        assert(a@.skip(0) == a@);
        assert(b@.skip(0) == b@);
    }
    while i < a.len() && i < b.len()
        invariant
            i <= a@.len(),
            i <= b@.len(),
            path_lt(a@, b@) == path_lt(a@.skip(i as int), b@.skip(i as int)),
        decreases a@.len() - i,
    {
        proof {
            assert(a@.skip(i as int)[0] == a@[i as int]);
            assert(b@.skip(i as int)[0] == b@[i as int]);
            assert(a@.skip(i as int).drop_first() == a@.skip(i + 1));
            assert(b@.skip(i as int).drop_first() == b@.skip(i + 1));
        }
        if a[i] != b[i] {
            return (a[i] as u32) < (b[i] as u32);
        }
        i = i + 1;
    }
    i == a.len() && i < b.len()
}

/// The leaves of the subdirectory at position `j` among the members (none for a file).
pub open spec fn member_children(gs: Seq<Group>, j: int) -> Seq<Leaf> {
    match gs[j] {
        Group::Dir(_, ch) => ch,
        Group::File(_, _) => Seq::empty(),
    }
}

/// `t` is the tree built from the sorted leaves `es`: its listing and hash are
/// those of the model, and for each `tree` entry, in order, it keeps the
/// subtree built from that subdirectory's leaves, named like the entry.
pub open spec fn built_from(t: Tree, es: Seq<Leaf>, fuel: nat) -> bool
    decreases fuel,
{
    &&& triples(t.entries@) == level(groups(es), fuel)
    &&& t.hash@ == tree_hash(es, fuel)
    &&& t.trees@.len() == tree_positions(t.entries@).len()
    &&& forall|k: int|
        #![trigger t.trees@[k]]
        0 <= k < t.trees@.len() ==> {
            &&& fuel > 0
            &&& t.trees@[k].path@ == t.entries@[tree_positions(t.entries@)[k]].path@
            &&& built_from(
                t.trees@[k],
                member_children(groups(es), tree_positions(t.entries@)[k]),
                (fuel - 1) as nat,
            )
        }
}

/// The `k`-th subtree of `t` is built as `built_from` asks, for members `gs`.
pub open spec fn subtree_built(t: Tree, gs: Seq<Group>, k: int, fuel: nat) -> bool {
    &&& fuel > 0
    &&& t.trees@[k].path@ == t.entries@[tree_positions(t.entries@)[k]].path@
    &&& built_from(t.trees@[k], member_children(gs, tree_positions(t.entries@)[k]), (fuel - 1) as nat)
}

proof fn lemma_built_from_intro(t: Tree, es: Seq<Leaf>, fuel: nat)
    requires
        triples(t.entries@) == level(groups(es), fuel),
        t.hash@ == tree_hash(es, fuel),
        t.trees@.len() == tree_positions(t.entries@).len(),
        forall|k: int| 0 <= k < t.trees@.len() ==> #[trigger] subtree_built(t, groups(es), k, fuel),
    ensures
        built_from(t, es, fuel),
{
    assert forall|k: int| 0 <= k < t.trees@.len() implies {
        &&& fuel > 0
        &&& (#[trigger] t.trees@[k]).path@ == t.entries@[tree_positions(t.entries@)[k]].path@
        &&& built_from(
            t.trees@[k],
            member_children(groups(es), tree_positions(t.entries@)[k]),
            (fuel - 1) as nat,
        )
    } by {
        assert(subtree_built(t, groups(es), k, fuel));
    }
}

proof fn lemma_built_from_renamed(t1: Tree, t2: Tree, es: Seq<Leaf>, fuel: nat)
    requires
        built_from(t1, es, fuel),
        t1.entries == t2.entries,
        t1.trees == t2.trees,
        t1.hash == t2.hash,
    ensures
        built_from(t2, es, fuel),
{
    assert forall|k: int| 0 <= k < t2.trees@.len() implies #[trigger] subtree_built(t2, groups(es), k, fuel) by {
        assert(t1.trees@[k] == t2.trees@[k]);
        assert(t1.trees@[k].path@ == t1.entries@[tree_positions(t1.entries@)[k]].path@);
    }
    lemma_built_from_intro(t2, es, fuel);
}

/// A staged file handed to tree building, its path as characters.
struct LeafEntry {
    hash: String,
    path: Vec<char>,
}

spec fn leaf_of(l: LeafEntry) -> Leaf {
    (l.hash@, l.path@)
}

spec fn leaves_of(ls: Seq<LeafEntry>) -> Seq<Leaf> {
    ls.map_values(|l: LeafEntry| leaf_of(l))
}

fn in_dir_exec(p: &Vec<char>, d: &Vec<char>) -> (r: bool)
    ensures
        r == in_dir(p@, d@),
{
    if p.len() <= d.len() {
        return false;
    }
    let head = crate::text::sub_chars(p, 0, d.len());
    crate::text::chars_eq(&head, d) && p[d.len()] == '/'
}

impl Index {
    /// Builds the tree of the sorted leaves `index`, one directory level at a
    /// time, and stores the listing of every level.
    fn write_tree_recursiv(index: &Vec<LeafEntry>, Ghost(fuel): Ghost<nat>, store: &mut ObjectStore) -> (r: Tree)
        requires
            old(store).wf(),
            forall|i: int| 0 <= i < index@.len() ==> (#[trigger] index@[i]).path@.len() < fuel,
        ensures
            final(store).wf(),
            triples(r.entries@) == level(groups(leaves_of(index@)), fuel),
            r.hash@ == tree_hash(leaves_of(index@), fuel),
            r.hash@.len() == 40,
            built_from(r, leaves_of(index@), fuel),
            keeps(*old(store), *final(store)),
            all_stored(*final(store), r, fuel),
            final(store).get(r.hash@) == Some(
                frame(NyxObjectType::Tree, encode_utf8(triples_text(crate::tree::name_sorted(triples(r.entries@))))),
            ),
        decreases fuel,
    {
        let ghost all = leaves_of(index@);
        let ghost mut done: Seq<Group> = Seq::empty();
        let mut tree = Tree::new();
        let mut idx: usize = 0;
        proof {
            assert(all.skip(0) == all);
        }
        while idx < index.len()
            invariant
                idx <= index@.len(),
                store.wf(),
                all == leaves_of(index@),
                forall|i: int| 0 <= i < index@.len() ==> (#[trigger] index@[i]).path@.len() < fuel,
                groups(all) == done + groups(all.skip(idx as int)),
                triples(tree.entries@) == level(done, fuel),
                tree.entries@.len() == done.len(),
                tree.trees@.len() == tree_positions(tree.entries@).len(),
                forall|k: int|
                    0 <= k < tree_positions(tree.entries@).len() ==> 0 <= #[trigger] tree_positions(
                        tree.entries@,
                    )[k] < tree.entries@.len(),
                forall|k: int| 0 <= k < tree.trees@.len() ==> #[trigger] subtree_built(tree, done, k, fuel),
                keeps(*old(store), *store),
                stored_from(*store, tree.trees@, fuel),
            decreases index@.len() - idx,
        {
            let ghost rest = all.skip(idx as int);
            proof {
                assert(rest[0] == leaf_of(index@[idx as int]));
            }
            match crate::text::find_char(&index[idx].path, '/') {
                Some(k) => {
                    let p = &index[idx].path;
                    proof {
                        lemma_dir_of(p@, k as int);
                        assert(p@.contains('/'));
                    }
                    let plen = p.len();
                    let dir = crate::text::sub_chars(p, 0, k);
                    let ghost d = dir@;
                    let first = LeafEntry {
                        hash: index[idx].hash.clone(),
                        path: crate::text::sub_chars(p, k + 1, plen),
                    };
                    let mut same: Vec<LeafEntry> = Vec::new();
                    same.push(first);
                    let mut j: usize = idx + 1;
                    proof {
                        assert(leaf_of(first) == strip_dir(all[idx as int], d));
                        assert(leaves_of(same@) == all.subrange(idx as int, j as int).map_values(
                            |l: Leaf| strip_dir(l, d),
                        ));
                        assert(rest.drop_first() == all.skip(idx + 1));
                    }
                    while j < index.len() && in_dir_exec(&index[j].path, &dir)
                        invariant
                            idx < j <= index@.len(),
                            all == leaves_of(index@),
                            d == dir@,
                            fuel > 0,
                            forall|i: int| 0 <= i < index@.len() ==> (#[trigger] index@[i]).path@.len() < fuel,
                            leaves_of(same@) == all.subrange(idx as int, j as int).map_values(
                                |l: Leaf| strip_dir(l, d),
                            ),
                            forall|t: int| 0 <= t < same@.len() ==> (#[trigger] same@[t]).path@.len() < fuel - 1,
                            run_len(all.skip(idx + 1), d) == (j - idx - 1) + run_len(all.skip(j as int), d),
                        decreases index@.len() - j,
                    {
                        let q = &index[j].path;
                        let qlen = q.len();
                        proof {
                            assert(in_dir(q@, d));
                        }
                        let next = LeafEntry {
                            hash: index[j].hash.clone(),
                            path: crate::text::sub_chars(q, dir.len() + 1, qlen),
                        };
                        proof {
                            assert(all.skip(j as int)[0] == all[j as int]);
                            assert(all.skip(j as int).drop_first() == all.skip(j + 1));
                            assert(leaf_of(next) == strip_dir(all[j as int], d));
                            assert(all.subrange(idx as int, j + 1) == all.subrange(idx as int, j as int).push(all[j as int]));
                        }
                        let ghost before = same@;
                        same.push(next);
                        proof {
                            assert(leaves_of(same@) == leaves_of(before).push(leaf_of(next)));
                        }
                        j = j + 1;
                    }
                    proof {
                        if j < index@.len() {
                            assert(all.skip(j as int)[0] == all[j as int]);
                        } else {
                            assert(all.skip(j as int).len() == 0);
                        }
                        assert(run_len(all.skip(j as int), d) == 0);
                        let n = j - idx;
                        assert(rest.take(n as int) == all.subrange(idx as int, j as int));
                        assert(rest.skip(n as int) == all.skip(j as int));
                    }
                    let ghost s0 = *store;
                    let sub = Index::write_tree_recursiv(&same, Ghost((fuel - 1) as nat), store);
                    proof {
                        crate::tree::lemma_stored_keeps(s0, *store, tree.trees@, fuel);
                    }
                    let ghost built = sub;
                    let mut sub = sub;
                    let name = from_chars(dir.as_slice());
                    sub.set_path(name.as_str());
                    proof {
                        lemma_built_from_renamed(built, sub, leaves_of(same@), (fuel - 1) as nat);
                    }
                    let ghost g = Group::Dir(d, leaves_of(same@));
                    let ghost old_entries = tree.entries@;
                    let ghost old_tree = tree;
                    let ghost sub_v = sub;
                    tree.add_tree(sub);
                    proof {
                        assert(tree.entries@.drop_last() == old_entries);
                        assert(tree_positions(tree.entries@) == tree_positions(old_entries).push(
                            old_entries.len() as int,
                        ));
                        assert(tree.trees@ == old_tree.trees@.push(sub_v));
                        let nd = done.push(g);
                        assert(member_children(nd, done.len() as int) == leaves_of(same@));
                        assert forall|k: int| 0 <= k < tree.trees@.len() implies #[trigger] subtree_built(
                            tree,
                            nd,
                            k,
                            fuel,
                        ) by {
                            if k < old_tree.trees@.len() {
                                assert(subtree_built(old_tree, done, k, fuel));
                                assert(tree.trees@[k] == old_tree.trees@[k]);
                                assert(tree_positions(tree.entries@)[k] == tree_positions(old_entries)[k]);
                                let j = tree_positions(old_entries)[k];
                                assert(0 <= j < old_entries.len());
                                assert(tree.entries@[j] == old_entries[j]);
                                assert(member_children(nd, j) == member_children(done, j));
                            } else {
                                assert(tree.trees@[k] == sub_v);
                                assert(tree_positions(tree.entries@)[k] == old_entries.len());
                            }
                        }
                        assert(tree.trees@.drop_last() == old_tree.trees@);
                        assert(groups(rest) == seq![g] + groups(all.skip(j as int)));
                        assert(done.push(g).drop_last() == done);
                        assert(triples(tree.entries@) == triples(old_entries).push(
                            entry_triple(tree.entries@.last()),
                        ));
                        assert(groups(all) == done.push(g) + groups(all.skip(j as int)));
                        done = done.push(g);
                    }
                    idx = j;
                    continue;
                },
                None => {
                    let name = from_chars(index[idx].path.as_slice());
                    let ghost g = Group::File(all[idx as int].0, all[idx as int].1);
                    let ghost old_entries = tree.entries@;
                    let ghost old_tree = tree;
                    tree.add_blob(index[idx].hash.as_str(), name.as_str());
                    proof {
                        assert(tree.entries@.drop_last() == old_entries);
                        assert(tree_positions(tree.entries@) == tree_positions(old_entries));
                        let nd = done.push(g);
                        assert forall|k: int| 0 <= k < tree.trees@.len() implies #[trigger] subtree_built(
                            tree,
                            nd,
                            k,
                            fuel,
                        ) by {
                            assert(subtree_built(old_tree, done, k, fuel));
                            assert(tree.trees@[k] == old_tree.trees@[k]);
                            let j = tree_positions(old_entries)[k];
                            assert(0 <= j < old_entries.len());
                            assert(tree.entries@[j] == old_entries[j]);
                            assert(member_children(nd, j) == member_children(done, j));
                        }
                        assert(!index@[idx as int].path@.contains('/'));
                        assert(rest.skip(1) == all.skip(idx + 1));
                        assert(groups(rest) == seq![g] + groups(all.skip(idx + 1)));
                        assert(done.push(g).drop_last() == done);
                        assert(triples(tree.entries@) == triples(old_entries).push(
                            entry_triple(tree.entries@.last()),
                        ));
                        assert(groups(all) == done.push(g) + groups(all.skip(idx + 1)));
                        done = done.push(g);
                    }
                    idx = idx + 1;
                },
            }
        }
        proof {
            assert(all.skip(idx as int).len() == 0);
            assert(done + groups(all.skip(idx as int)) == done);
        }
        let text = tree.content();
        let ghost s1 = *store;
        let hash = store.write(text.as_str().as_bytes(), NyxObjectType::Tree);
        let ghost unnamed = tree;
        tree.set_hash(hash.as_str());
        proof {
            crate::tree::lemma_stored_keeps(s1, *store, tree.trees@, fuel);
            assert forall|k: int| 0 <= k < tree.trees@.len() implies #[trigger] subtree_built(
                tree,
                groups(all),
                k,
                fuel,
            ) by {
                assert(subtree_built(unnamed, done, k, fuel));
            }
            lemma_built_from_intro(tree, all, fuel);
        }
        tree
    }
}

impl Index {
    /// Sets every entry to `Committed`, orders the entries by path and builds
    /// the tree of the staged files, storing the listing of each directory.
    pub fn write_tree(&mut self, store: &mut ObjectStore) -> (r: Tree)
        requires
            old(store).wf(),
        ensures
            final(store).wf(),
            sorted_by_path(final(self)@),
            final(self)@.to_multiset() == committed(old(self)@).to_multiset(),
            triples(r.entries@) == level(
                groups(leaves(final(self)@)),
                path_bound(leaves(final(self)@)),
            ),
            r.hash@ == tree_hash(leaves(final(self)@), path_bound(leaves(final(self)@))),
            r.hash@.len() == 40,
            built_from(r, leaves(final(self)@), path_bound(leaves(final(self)@))),
            keeps(*old(store), *final(store)),
            all_stored(*final(store), r, path_bound(leaves(final(self)@))),
            final(store).get(r.hash@) == Some(
                frame(NyxObjectType::Tree, encode_utf8(triples_text(crate::tree::name_sorted(triples(r.entries@))))),
            ),
    {
        self.mark_as_committed();
        self.sort_by_path();
        let mut ls: Vec<LeafEntry> = Vec::new();
        let mut i: usize = 0;
        while i < self.entries.len()
            invariant
                i <= self.entries@.len(),
                leaves_of(ls@) == leaves(self@).take(i as int),
            decreases self.entries@.len() - i,
        {
            let l = LeafEntry {
                hash: self.entries[i].hash.clone(),
                path: to_chars(self.entries[i].path.as_str()),
            };
            let ghost before = ls@;
            ls.push(l);
            proof {
                assert(leaves_of(ls@) == leaves_of(before).push(leaf_of(l)));
                assert(leaves(self@).take(i + 1) == leaves(self@).take(i as int).push(leaves(self@)[i as int]));
                assert(self@[i as int] == entry_view(self.entries@[i as int]));
            }
            i = i + 1;
        }
        proof {
            assert(leaves(self@).take(self@.len() as int) == leaves(self@));
            lemma_path_bound(leaves(self@));
            assert forall|k: int| 0 <= k < ls@.len() implies (#[trigger] ls@[k]).path@.len()
                < path_bound(leaves(self@)) by {
                assert(leaves_of(ls@)[k] == leaves(self@)[k]);
            }
        }
        Index::write_tree_recursiv(&ls, Ghost(path_bound(leaves(self@))), store)
    }

    fn mark_as_committed(&mut self)
        ensures
            final(self)@ == committed(old(self)@),
    {
        let mut out: Vec<IndexEntry> = Vec::new();
        let mut i: usize = 0;
        while i < self.entries.len()
            invariant
                i <= self.entries@.len(),
                entries_view(out@) == committed(self@).take(i as int),
            decreases self.entries@.len() - i,
        {
            let e = IndexEntry {
                hash: self.entries[i].hash.clone(),
                path: self.entries[i].path.clone(),
                state: NyxFileState::Committed,
            };
            let ghost before = out@;
            out.push(e);
            proof {
                assert(entries_view(out@) == entries_view(before).push(entry_view(e)));
                assert(committed(self@).take(i + 1) == committed(self@).take(i as int).push(committed(self@)[i as int]));
                assert(self@[i as int] == entry_view(self.entries@[i as int]));
            }
            i = i + 1;
        }
        proof {
            assert(committed(self@).take(self@.len() as int) == committed(self@));
        }
        self.entries = out;
    }

    fn sort_by_path(&mut self)
        ensures
            sorted_by_path(final(self)@),
            final(self)@.to_multiset() == old(self)@.to_multiset(),
    {
        let mut out: Vec<IndexEntry> = Vec::new();
        let mut i: usize = 0;
        proof {
            assert(entries_view(out@) =~= self@.take(0));
        }
        while i < self.entries.len()
            invariant
                i <= self.entries@.len(),
                sorted_by_path(entries_view(out@)),
                entries_view(out@).to_multiset() == self@.take(i as int).to_multiset(),
            decreases self.entries@.len() - i,
        {
            let x = copy_entry(&self.entries[i]);
            let xp = to_chars(x.path.as_str());
            let mut pos: usize = 0;
            while pos < out.len() && !path_lt_exec(&xp, &to_chars(out[pos].path.as_str()))
                invariant
                    pos <= out@.len(),
                    xp@ == x.path@,
                    forall|k: int| 0 <= k < pos ==> !path_lt(x.path@, (#[trigger] out@[k]).path@),
                decreases out@.len() - pos,
            {
                pos = pos + 1;
            }
            let ghost s = entries_view(out@);
            let ghost xv = entry_view(x);
            proof {
                assert forall|k: int| 0 <= k < pos implies !path_lt(xv.1, #[trigger] s[k].1) by {
                    assert(s[k] == entry_view(out@[k]));
                }
                if pos < out@.len() {
                    assert(s[pos as int] == entry_view(out@[pos as int]));
                    assert(path_lt(xv.1, s[pos as int].1));
                }
            }
            out.insert(pos, x);
            proof {
                assert(entries_view(out@) == s.insert(pos as int, xv));
                vstd::seq_lib::to_multiset_insert(s, pos as int, xv);
                assert(self@.take(i + 1) == self@.take(i as int).push(self@[i as int]));
                vstd::seq_lib::to_multiset_build(self@.take(i as int), self@[i as int]);
                assert(self@[i as int] == xv);
                let n = s.insert(pos as int, xv);
                assert forall|a: int, b: int| 0 <= a < b < n.len() implies !path_lt(#[trigger] n[b].1, #[trigger] n[a].1) by {
                    if b < pos {
                        assert(n[a] == s[a] && n[b] == s[b]);
                    } else if b == pos {
                        assert(n[a] == s[a]);
                    } else if a == pos {
                        assert(n[b] == s[b - 1]);
                        lemma_path_lt_asym(xv.1, s[pos as int].1);
                        lemma_path_lt_trans(s[b - 1].1, xv.1, s[pos as int].1);
                    } else if a < pos {
                        assert(n[a] == s[a] && n[b] == s[b - 1]);
                    } else {
                        assert(n[a] == s[a - 1] && n[b] == s[b - 1]);
                    }
                }
            }
            i = i + 1;
        }
        proof {
            assert(self@.take(self@.len() as int) == self@);
        }
        self.entries = out;
    }
}

} // verus!
