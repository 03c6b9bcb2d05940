//! Commits, the branch reference and HEAD.
use vstd::prelude::*;
use crate::object::{frame, object_hash_of};
use crate::object_type::NyxObjectType;
use crate::store::ObjectStore;
use crate::text::{chars_view, fields, from_chars, split_fields, to_chars};
use vstd::utf8::encode_utf8;

verus! {

/// A commit: a tree snapshot, its parent commit (empty for a root commit), its
/// own hash (empty until written) and a message.
#[derive(Debug)]
pub struct Commit {
    tree_hash: String,
    parent_hash: String,
    hash: String,
    message: String,
}

pub open spec fn tree_prefix() -> Seq<char> {
    seq!['t', 'r', 'e', 'e', ' ']
}

pub open spec fn parent_prefix() -> Seq<char> {
    seq!['p', 'a', 'r', 'e', 'n', 't', ' ']
}

/// `"tree {tree}\n"`, then `"parent {parent}\n"` unless the parent is empty, then the message.
pub open spec fn commit_text(tree: Seq<char>, parent: Seq<char>, message: Seq<char>) -> Seq<char> {
    tree_prefix() + tree + seq!['\n'] + if parent.len() > 0 {
        parent_prefix() + parent + seq!['\n']
    } else {
        Seq::<char>::empty()
    } + message
}

/// The second space-separated field of a line.
pub open spec fn second_field(line: Seq<char>) -> Option<Seq<char>> {
    let f = fields(line, ' ');
    if f.len() >= 2 {
        Some(f[1])
    } else {
        None
    }
}

/// `(tree, parent, message)` of a stored commit text: its non-empty lines are
/// `tree {hash}` and the message, or `tree {hash}`, `parent {hash}` and the
/// message; any other text is malformed.
pub open spec fn parse_commit(text: Seq<char>) -> Option<(Seq<char>, Seq<char>, Seq<char>)> {
    let ls = fields(text, '\n');
    if ls.len() == 2 {
        match second_field(ls[0]) {
            Some(t) => Some((t, Seq::<char>::empty(), ls[1])),
            None => None,
        }
    } else if ls.len() == 3 {
        match (second_field(ls[0]), second_field(ls[1])) {
            (Some(t), Some(p)) => Some((t, p, ls[2])),
            _ => None,
        }
    } else {
        None
    }
}

pub open spec fn symbolic_head() -> Seq<char> {
    seq!['r', 'e', 'f', ':', ' ', 'r', 'e', 'f', 's', '/', 'm', 'a', 's', 't', 'e', 'r']
}

/// A commit can be read from the store under `h`.
pub open spec fn commit_at(store: ObjectStore, h: Seq<char>) -> bool {
    h.len() > 0 && store.read_spec(h) is Ok && parse_commit(store.read_spec(h)->Ok_0) is Some
}

/// The references: the contents of `HEAD` and of `refs/master` (empty when absent).
pub struct Refs {
    pub head: String,
    pub master: String,
}

/// The commit that HEAD names: the branch tip when HEAD is symbolic, else HEAD itself.
pub open spec fn resolved(head: Seq<char>, master: Seq<char>) -> Seq<char> {
    if head == symbolic_head() {
        master
    } else {
        head
    }
}

proof fn lemma_second_field(word: Seq<char>, t: Seq<char>)
    requires
        word.len() > 0,
        !word.contains(' '),
        t.len() > 0,
        !t.contains(' '),
    ensures
        second_field(word + seq![' '] + t) == Some(t),
{
    crate::text::lemma_split_concat(word, t, ' ');
    crate::text::lemma_split_single(t, ' ');
    let ps = seq![word] + seq![t];
    assert(ps == seq![word, t]);
    assert(ps.drop_last() == seq![word]);
    assert(seq![word].drop_last() == Seq::<Seq<char>>::empty());
    reveal_with_fuel(crate::text::non_empty, 3);
}

proof fn lemma_no_char(s: Seq<char>, c: char)
    requires
        forall|i: int| 0 <= i < s.len() ==> s[i] != c,
    ensures
        !s.contains(c),
{
}

/// Commit round trip: the stored text of a commit parses back to the same
/// tree hash, parent hash and message, when the hashes are free of spaces and
/// newlines, the tree hash and message are not empty and the message is a
/// single line.
pub proof fn lemma_commit_round_trip(t: Seq<char>, p: Seq<char>, m: Seq<char>)
    requires
        t.len() > 0,
        !t.contains(' '),
        !t.contains('\n'),
        !p.contains(' '),
        !p.contains('\n'),
        m.len() > 0,
        !m.contains('\n'),
    ensures
        parse_commit(commit_text(t, p, m)) == Some((t, p, m)),
{
    let word_t = seq!['t', 'r', 'e', 'e'];
    let word_p = seq!['p', 'a', 'r', 'e', 'n', 't'];
    lemma_no_char(word_t, ' ');
    lemma_no_char(word_p, ' ');
    let a = tree_prefix() + t;
    assert(a == word_t + seq![' '] + t);
    lemma_second_field(word_t, t);
    assert(!a.contains('\n')) by {
        if a.contains('\n') {
            let i = choose|i: int| 0 <= i < a.len() && #[trigger] a[i] == '\n';
            assert(t[i - 5] == '\n');
        }
    }
    crate::text::lemma_split_single(m, '\n');
    reveal_with_fuel(crate::text::non_empty, 4);
    if p.len() > 0 {
        let b = parent_prefix() + p;
        assert(b == word_p + seq![' '] + p);
        lemma_second_field(word_p, p);
        assert(!b.contains('\n')) by {
            if b.contains('\n') {
                let i = choose|i: int| 0 <= i < b.len() && #[trigger] b[i] == '\n';
                assert(p[i - 7] == '\n');
            }
        }
        assert(commit_text(t, p, m) == a + seq!['\n'] + (b + seq!['\n'] + m));
        crate::text::lemma_split_concat(b, m, '\n');
        crate::text::lemma_split_concat(a, b + seq!['\n'] + m, '\n');
        let ps = seq![a] + (seq![b] + seq![m]);
        assert(ps == seq![a, b, m]);
        assert(ps.drop_last() == seq![a, b]);
        assert(seq![a, b].drop_last() == seq![a]);
        assert(seq![a].drop_last() == Seq::<Seq<char>>::empty());
    } else {
        assert(commit_text(t, p, m) == a + seq!['\n'] + m);
        crate::text::lemma_split_concat(a, m, '\n');
        let ps = seq![a] + seq![m];
        assert(ps == seq![a, m]);
        assert(ps.drop_last() == seq![a]);
        assert(seq![a].drop_last() == Seq::<Seq<char>>::empty());
    }
}

/// A written commit reads back: once the store holds a commit's text under
/// its (forty-digit) digest, as `Commit::write` leaves it, a commit can be
/// read under that digest, with the same tree hash, parent hash and message,
/// when the hashes are free of spaces and newlines, the tree hash and
/// message are not empty and the message is a single line.
pub proof fn lemma_written_commit_reads_back(store: ObjectStore, t: Seq<char>, p: Seq<char>, m: Seq<char>)
    requires
        t.len() > 0,
        !t.contains(' '),
        !t.contains('\n'),
        !p.contains(' '),
        !p.contains('\n'),
        m.len() > 0,
        !m.contains('\n'),
        object_hash_of(NyxObjectType::Commit, encode_utf8(commit_text(t, p, m))).len() == 40,
        store.get(object_hash_of(NyxObjectType::Commit, encode_utf8(commit_text(t, p, m)))) == Some(
            frame(NyxObjectType::Commit, encode_utf8(commit_text(t, p, m))),
        ),
    ensures
        commit_at(store, object_hash_of(NyxObjectType::Commit, encode_utf8(commit_text(t, p, m)))),
        parse_commit(
            store.read_spec(object_hash_of(NyxObjectType::Commit, encode_utf8(commit_text(t, p, m))))->Ok_0,
        ) == Some((t, p, m)),
{
    crate::object::lemma_read_text(NyxObjectType::Commit, commit_text(t, p, m));
    lemma_commit_round_trip(t, p, m);
}

fn second_field_exec(line: &Vec<char>) -> (r: Option<String>)
    ensures
        r matches Some(s) ==> second_field(line@) == Some(s@),
        r is None ==> second_field(line@) is None,
{
    let f = split_fields(line, ' ');
    if f.len() >= 2 {
        let ghost fv = chars_view(f@);
        proof {
            assert(fv[1] == f@[1]@);
        }
        Some(from_chars(f[1].as_slice()))
    } else {
        None
    }
}

impl Refs {
    /// The text of a symbolic HEAD that tracks the branch.
    pub fn symbolic() -> (r: String)
        ensures
            r@ == symbolic_head(),
    {
        let r = String::from_str("ref: refs/master");
        proof {
            reveal_strlit("ref: refs/master");
        }
        r
    }

    /// The commit hash that HEAD names (empty when there is none).
    pub fn resolve_head(&self) -> (r: String)
        ensures
            r@ == resolved(self.head@, self.master@),
    {
        let s = Refs::symbolic();
        if self.head == s {
            self.master.clone()
        } else {
            self.head.clone()
        }
    }
}

impl Commit {
    /// A commit of `tree_hash` with `message`, on top of the commit that HEAD names.
    pub fn new(tree_hash: &str, message: &str, refs: &Refs) -> (r: Commit)
        ensures
            r.tree_hash() == tree_hash@,
            r.parent() == resolved(refs.head@, refs.master@),
            r.hash() == Seq::<char>::empty(),
            r.message() == message@,
    {
        Commit {
            tree_hash: String::from_str(tree_hash),
            parent_hash: refs.resolve_head(),
            hash: String::new(),
            message: String::from_str(message),
        }
    }

    pub closed spec fn tree_hash(&self) -> Seq<char> {
        self.tree_hash@
    }

    pub closed spec fn parent(&self) -> Seq<char> {
        self.parent_hash@
    }

    pub closed spec fn hash(&self) -> Seq<char> {
        self.hash@
    }

    pub closed spec fn message(&self) -> Seq<char> {
        self.message@
    }

    /// The stored form of the commit.
    pub fn get_content(&self) -> (r: String)
        ensures
            r@ == commit_text(self.tree_hash(), self.parent(), self.message()),
    {
        let mut r = String::from_str("tree ");
        proof {
            reveal_strlit("tree ");
        }
        r.append(self.tree_hash.as_str());
        crate::text::push_char(&mut r, '\n');
        if !self.parent_hash.as_str().is_empty() {
            let p = String::from_str("parent ");
            proof {
                reveal_strlit("parent ");
            }
            r.append(p.as_str());
            r.append(self.parent_hash.as_str());
            crate::text::push_char(&mut r, '\n');
        }
        r.append(self.message.as_str());
        proof {
            if self.parent_hash@.len() > 0 {
                assert(r@ == tree_prefix() + self.tree_hash@ + seq!['\n'] + (parent_prefix()
                    + self.parent_hash@ + seq!['\n']) + self.message@);
            } else {
                assert(r@ == tree_prefix() + self.tree_hash@ + seq!['\n'] + Seq::<char>::empty()
                    + self.message@);
            }
        }
        r
    }

    /// The commit whose stored text is `content`, with hash `hash`; `None` when
    /// the text is malformed.
    pub fn parse(hash: &str, content: &str) -> (r: Option<Commit>)
        ensures
            r matches Some(c) ==> parse_commit(content@) == Some((c.tree_hash(), c.parent(), c.message()))
                && c.hash() == hash@,
            r is None ==> parse_commit(content@) is None,
    {
        let chars = to_chars(content);
        let ls = split_fields(&chars, '\n');
        let ghost lv = chars_view(ls@);
        if ls.len() == 2 {
            proof {
                assert(lv[0] == ls@[0]@ && lv[1] == ls@[1]@);
            }
            match second_field_exec(&ls[0]) {
                Some(t) => Some(
                    Commit {
                        tree_hash: t,
                        parent_hash: String::new(),
                        hash: String::from_str(hash),
                        message: from_chars(ls[1].as_slice()),
                    },
                ),
                None => None,
            }
        } else if ls.len() == 3 {
            proof {
                assert(lv[0] == ls@[0]@ && lv[1] == ls@[1]@ && lv[2] == ls@[2]@);
            }
            match (second_field_exec(&ls[0]), second_field_exec(&ls[1])) {
                (Some(t), Some(p)) => Some(
                    Commit {
                        tree_hash: t,
                        parent_hash: p,
                        hash: String::from_str(hash),
                        message: from_chars(ls[2].as_slice()),
                    },
                ),
                _ => None,
            }
        } else {
            None
        }
    }

    /// The commit stored under `hash`: `None` for an empty hash, a missing or
    /// unreadable object, or a malformed commit text.
    pub fn from_hash(hash: &str, store: &ObjectStore) -> (r: Option<Commit>)
        ensures
            r is Some <==> commit_at(*store, hash@),
            hash@.len() > 0 && store.read_spec(hash@) is Ok ==> (r matches Some(c) ==> parse_commit(
                store.read_spec(hash@)->Ok_0,
            ) == Some((c.tree_hash(), c.parent(), c.message())) && c.hash() == hash@),
            hash@.len() > 0 && store.read_spec(hash@) is Ok ==> (r is None <==> parse_commit(
                store.read_spec(hash@)->Ok_0,
            ) is None),
    {
        if hash.is_empty() {
            return None;
        }
        match store.read(hash) {
            Ok(content) => Commit::parse(hash, content.as_str()),
            Err(_) => None,
        }
    }

    /// The commit that HEAD names, if there is one.
    pub fn from_head(store: &ObjectStore, refs: &Refs) -> (r: Option<Commit>)
        ensures
            r is Some <==> commit_at(*store, resolved(refs.head@, refs.master@)),
            r matches Some(c) ==> c.hash() == resolved(refs.head@, refs.master@) && parse_commit(
                store.read_spec(c.hash())->Ok_0,
            ) == Some((c.tree_hash(), c.parent(), c.message())),
    {
        let h = refs.resolve_head();
        Commit::from_hash(h.as_str(), store)
    }

    /// Stores the commit, records its hash, moves the branch to it and attaches
    /// HEAD to the branch.
    pub fn write(&mut self, store: &mut ObjectStore, refs: &mut Refs)
        requires
            old(store).wf(),
        ensures
            final(store).wf(),
            final(self).hash() == object_hash_of(
                NyxObjectType::Commit,
                encode_utf8(commit_text(old(self).tree_hash(), old(self).parent(), old(self).message())),
            ),
            final(self).hash().len() == 40,
            final(self).tree_hash() == old(self).tree_hash(),
            final(self).parent() == old(self).parent(),
            final(self).message() == old(self).message(),
            final(store).get(final(self).hash()) == Some(
                frame(
                    NyxObjectType::Commit,
                    encode_utf8(commit_text(old(self).tree_hash(), old(self).parent(), old(self).message())),
                ),
            ),
            forall|k: Seq<char>| k != final(self).hash() ==> #[trigger] final(store).get(k) == old(store).get(k),
            final(refs).master@ == final(self).hash(),
            final(refs).head@ == symbolic_head(),
    {
        let content = self.get_content();
        let h = store.write(content.as_str().as_bytes(), NyxObjectType::Commit);
        refs.master = h.clone();
        refs.head = Refs::symbolic();
        self.hash = h;
    }

    pub fn get_hash(&self) -> (r: &str)
        ensures
            r@ == self.hash(),
    {
        self.hash.as_str()
    }

    pub fn get_parent_hash(&self) -> (r: &str)
        ensures
            r@ == self.parent(),
    {
        self.parent_hash.as_str()
    }

    pub fn get_tree_hash(&self) -> (r: &str)
        ensures
            r@ == self.tree_hash(),
    {
        self.tree_hash.as_str()
    }

    pub fn get_message(&self) -> (r: &str)
        ensures
            r@ == self.message(),
    {
        self.message.as_str()
    }
}

} // verus!
