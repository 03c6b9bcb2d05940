//! The repository's on-disk layout and the ignore predicate.
use vstd::prelude::*;
use crate::text::{chars_view, fields, push_char, split_fields, to_chars};

verus! {

/// Where a repository lives and which paths it ignores.
pub struct NyxFileSystem {
    root_dir: String,
    is_repo: bool,
    ignored: Vec<String>,
}

pub open spec fn meta_name() -> Seq<char> {
    seq!['.', 'm', 'e', 't', 'a']
}

/// `base/name`.
pub open spec fn path_join(base: Seq<char>, name: Seq<char>) -> Seq<char> {
    base + seq!['/'] + name
}

/// `p` ends with the path components of `q` (as `Path::ends_with` compares them).
pub open spec fn ends_with_components(p: Seq<char>, q: Seq<char>) -> bool {
    let a = fields(p, '/');
    let b = fields(q, '/');
    b.len() <= a.len() && a.skip(a.len() - b.len()) == b
}

fn join_exec(base: &str, name: &str) -> (r: String)
    ensures
        r@ == path_join(base@, name@),
{
    let mut r = String::from_str(base);
    push_char(&mut r, '/');
    r.append(name);
    r
}

impl NyxFileSystem {
    fn nyx_dir() -> (r: String)
        ensures
            r@ == meta_name(),
    {
        let r = String::from_str(".meta");
        proof {
            reveal_strlit(".meta");
        }
        r
    }

    fn objects_dir() -> (r: String)
        ensures
            r@ == seq!['o', 'b', 'j', 'e', 'c', 't', 's'],
    {
        let r = String::from_str("objects");
        proof {
            reveal_strlit("objects");
        }
        r
    }

    fn refs_dir() -> (r: String)
        ensures
            r@ == seq!['r', 'e', 'f', 's'],
    {
        let r = String::from_str("refs");
        proof {
            reveal_strlit("refs");
        }
        r
    }

    fn head_file() -> (r: String)
        ensures
            r@ == seq!['H', 'E', 'A', 'D'],
    {
        let r = String::from_str("HEAD");
        proof {
            reveal_strlit("HEAD");
        }
        r
    }

    fn index_file() -> (r: String)
        ensures
            r@ == seq!['i', 'n', 'd', 'e', 'x'],
    {
        let r = String::from_str("index");
        proof {
            reveal_strlit("index");
        }
        r
    }

    /// A repository rooted at `root_dir` (found by the caller), whether one
    /// exists there, and the ignore patterns: the non-empty lines of
    /// `ignore_text`, then the repository's own directory.
    pub fn new(root_dir: &str, is_repo: bool, ignore_text: &str) -> (r: NyxFileSystem)
        ensures
            r.root() == root_dir@,
            r.in_repository() == is_repo,
            r.patterns() == fields(ignore_text@, '\n').push(meta_name()),
    {
        let chars = to_chars(ignore_text);
        let lines = split_fields(&chars, '\n');
        let ghost lv = chars_view(lines@);
        let mut ignored: Vec<String> = Vec::new();
        let mut i: usize = 0;
        while i < lines.len()
            invariant
                i <= lines@.len(),
                lv == chars_view(lines@),
                strings(ignored@) == lv.take(i as int),
            decreases lines@.len() - i,
        {
            let ghost before = ignored@;
            let line = crate::text::from_chars(lines[i].as_slice());
            ignored.push(line);
            proof {
                assert(strings(ignored@) == strings(before).push(lv[i as int]));
                assert(lv.take(i + 1) == lv.take(i as int).push(lv[i as int]));
            }
            i = i + 1;
        }
        let ghost before = ignored@;
        let own = NyxFileSystem::nyx_dir();
        ignored.push(own);
        proof {
            assert(lv.take(lv.len() as int) == lv);
            assert(strings(ignored@) == strings(before).push(meta_name()));
        }
        NyxFileSystem { root_dir: String::from_str(root_dir), is_repo, ignored }
    }

    pub closed spec fn root(&self) -> Seq<char> {
        self.root_dir@
    }

    pub closed spec fn patterns(&self) -> Seq<Seq<char>> {
        strings(self.ignored@)
    }

    pub closed spec fn in_repository(&self) -> bool {
        self.is_repo
    }

    /// True when the current directory lies inside a repository.
    pub fn is_repository(&self) -> (r: bool)
        ensures
            r == self.in_repository(),
    {
        self.is_repo
    }

    /// The tracked directory: the parent of the repository's own directory.
    pub fn get_root_dir(&self) -> (r: &String)
        ensures
            r@ == self.root(),
    {
        &self.root_dir
    }

    /// `{root}/.meta`.
    pub fn get_repo_dir(&self) -> (r: String)
        ensures
            r@ == path_join(self.root(), meta_name()),
    {
        let n = NyxFileSystem::nyx_dir();
        join_exec(self.root_dir.as_str(), n.as_str())
    }

    /// `{root}/.meta/objects`.
    pub fn get_objects_dir_path(&self) -> (r: String)
        ensures
            r@ == path_join(path_join(self.root(), meta_name()), seq!['o', 'b', 'j', 'e', 'c', 't', 's']),
    {
        let d = self.get_repo_dir();
        let n = NyxFileSystem::objects_dir();
        join_exec(d.as_str(), n.as_str())
    }

    /// `{root}/.meta/refs`.
    pub fn get_refs_dir_path(&self) -> (r: String)
        ensures
            r@ == path_join(path_join(self.root(), meta_name()), seq!['r', 'e', 'f', 's']),
    {
        let d = self.get_repo_dir();
        let n = NyxFileSystem::refs_dir();
        join_exec(d.as_str(), n.as_str())
    }

    /// `{root}/.meta/objects/{dir_name}`.
    pub fn get_object_dir_path(&self, dir_name: &str) -> (r: String)
        ensures
            r@ == path_join(
                path_join(path_join(self.root(), meta_name()), seq!['o', 'b', 'j', 'e', 'c', 't', 's']),
                dir_name@,
            ),
    {
        let d = self.get_objects_dir_path();
        join_exec(d.as_str(), dir_name)
    }

    /// `{root}/.meta/objects/{dir_name}/{file_name}`.
    pub fn get_object_path(&self, dir_name: &str, file_name: &str) -> (r: String)
        ensures
            r@ == path_join(
                path_join(
                    path_join(path_join(self.root(), meta_name()), seq!['o', 'b', 'j', 'e', 'c', 't', 's']),
                    dir_name@,
                ),
                file_name@,
            ),
    {
        let d = self.get_object_dir_path(dir_name);
        join_exec(d.as_str(), file_name)
    }

    /// `{root}/.meta/HEAD`.
    pub fn get_head_path(&self) -> (r: String)
        ensures
            r@ == path_join(path_join(self.root(), meta_name()), seq!['H', 'E', 'A', 'D']),
    {
        let d = self.get_repo_dir();
        let n = NyxFileSystem::head_file();
        join_exec(d.as_str(), n.as_str())
    }

    /// `{root}/.meta/index`.
    pub fn get_index_path(&self) -> (r: String)
        ensures
            r@ == path_join(path_join(self.root(), meta_name()), seq!['i', 'n', 'd', 'e', 'x']),
    {
        let d = self.get_repo_dir();
        let n = NyxFileSystem::index_file();
        join_exec(d.as_str(), n.as_str())
    }

    /// True when `path` ends with the components of one of the ignore patterns.
    pub fn is_ignored(&self, path: &str) -> (r: bool)
        ensures
            r == exists|i: int|
                0 <= i < self.patterns().len() && ends_with_components(path@, #[trigger] self.patterns()[i]),
    {
        let pc = to_chars(path);
        let a = split_fields(&pc, '/');
        let mut i: usize = 0;
        while i < self.ignored.len()
            invariant
                i <= self.ignored@.len(),
                chars_view(a@) == fields(path@, '/'),
                forall|j: int| 0 <= j < i ==> !ends_with_components(path@, #[trigger] self.patterns()[j]),
            decreases self.ignored@.len() - i,
        {
            let qc = to_chars(self.ignored[i].as_str());
            let b = split_fields(&qc, '/');
            if components_suffix(&a, &b) {
                proof {
                    assert(self.patterns()[i as int] == self.ignored@[i as int]@);
                }
                return true;
            }
            proof {
                assert(self.patterns()[i as int] == self.ignored@[i as int]@);
            }
            i = i + 1;
        }
        false
    }
}

/// Splits an object hash into the directory name (its first two characters)
/// and the file name (the rest); `None` for a hash shorter than two characters.
pub fn split_object_hash(hash: &str) -> (r: Option<(String, String)>)
    ensures
        hash@.len() < 2 <==> r is None,
        r matches Some(p) ==> p.0@ == hash@.take(2) && p.1@ == hash@.skip(2),
{
    let c = to_chars(hash);
    if c.len() < 2 {
        return None;
    }
    let d = crate::text::sub_chars(&c, 0, 2);
    let f = crate::text::sub_chars(&c, 2, c.len());
    Some((crate::text::from_chars(d.as_slice()), crate::text::from_chars(f.as_slice())))
}

pub open spec fn strings(v: Seq<String>) -> Seq<Seq<char>> {
    v.map_values(|s: String| s@)
}

fn components_suffix(a: &Vec<Vec<char>>, b: &Vec<Vec<char>>) -> (r: bool)
    ensures
        r == ({
            let av = chars_view(a@);
            let bv = chars_view(b@);
            bv.len() <= av.len() && av.skip(av.len() - bv.len()) == bv
        }),
{
    let ghost av = chars_view(a@);
    let ghost bv = chars_view(b@);
    if b.len() > a.len() {
        return false;
    }
    let alen = a.len();
    let off = alen - b.len();
    let mut k: usize = 0;
    while k < b.len()
        invariant
            k <= b@.len(),
            alen == a@.len(),
            off + b@.len() == a@.len(),
            av == chars_view(a@),
            bv == chars_view(b@),
            forall|j: int| 0 <= j < k ==> av[off + j] == bv[j],
        decreases b@.len() - k,
    {
        if !crate::text::chars_eq(&a[off + k], &b[k]) {
            proof {
                assert(av.skip(off as int)[k as int] != bv[k as int]);
            }
            return false;
        }
        k = k + 1;
    }
    proof {
        assert(av.skip(off as int) == bv);
    }
    true
}

} // verus!
