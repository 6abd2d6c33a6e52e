//! Change detection: what a file's change status is, from the flags that
//! git reports for it or from a cache of content hashes; which paths are
//! left out of indexing; and the content hash itself, the 64-bit xxHash3
//! of the file's bytes written as sixteen lowercase hex digits.
use vstd::prelude::*;

use crate::assoc::{assoc_has, assoc_map, assoc_unique, lemma_assoc_at, lemma_assoc_push, lemma_assoc_update};
use crate::minimal_language_adapter::{path_extension, spec_path_extension, str_in};
use crate::text::{chars_match_at, chars_of, occurs_at, str_eq, str_to_string, string_push};

verus! {

/// How a file changed.
#[derive(Clone, Debug, PartialEq, Eq)]
pub enum FileChangeStatus {
    Added,
    Modified,
    Deleted,
    Renamed { from: String },
    Untracked,
}

/// A changed file: its path, how it changed, and its content hash when it
/// still exists.
#[derive(Clone, Debug)]
pub struct FileChange {
    pub path: String,
    pub status: FileChangeStatus,
    pub content_hash: Option<String>,
}

/// The git status flags of a file that decide its change status.
#[derive(Clone, Copy, Debug)]
pub struct GitStatusFlags {
    pub wt_new: bool,
    pub wt_modified: bool,
    pub wt_deleted: bool,
    pub wt_renamed: bool,
    pub index_new: bool,
    pub index_modified: bool,
    pub index_deleted: bool,
}

/// The change status for git status flags: the working tree's flags take
/// precedence over the index's, in the order new, modified, deleted
/// (a rename in the working tree counts as a modification); no flag means
/// the file is untracked.
pub open spec fn spec_git_status(f: GitStatusFlags) -> FileChangeStatus {
    if f.wt_new {
        FileChangeStatus::Added
    } else if f.wt_modified {
        FileChangeStatus::Modified
    } else if f.wt_deleted {
        FileChangeStatus::Deleted
    } else if f.wt_renamed {
        FileChangeStatus::Modified
    } else if f.index_new {
        FileChangeStatus::Added
    } else if f.index_modified {
        FileChangeStatus::Modified
    } else if f.index_deleted {
        FileChangeStatus::Deleted
    } else {
        FileChangeStatus::Untracked
    }
}

/// How git's flags decide a change: a file new in the worktree is added;
/// otherwise one modified in the worktree is modified, whatever else is set;
/// otherwise one deleted in the worktree is deleted, and one renamed there
/// is modified. With no worktree flag, the index decides the same way
/// (new, then modified, then deleted); with no flag at all the file is
/// untracked, and only then.
pub proof fn law_git_flags_decide(f: GitStatusFlags)
    ensures
        f.wt_new ==> spec_git_status(f) == FileChangeStatus::Added,
        !f.wt_new && f.wt_modified ==> spec_git_status(f) == FileChangeStatus::Modified,
        !f.wt_new && !f.wt_modified && f.wt_deleted ==> spec_git_status(f) == FileChangeStatus::Deleted,
        !f.wt_new && !f.wt_modified && !f.wt_deleted && f.wt_renamed ==> spec_git_status(f) == FileChangeStatus::Modified,
        !(f.wt_new || f.wt_modified || f.wt_deleted || f.wt_renamed) ==> {
            &&& f.index_new ==> spec_git_status(f) == FileChangeStatus::Added
            &&& !f.index_new && f.index_modified ==> spec_git_status(f) == FileChangeStatus::Modified
            &&& !f.index_new && !f.index_modified && f.index_deleted ==> spec_git_status(f) == FileChangeStatus::Deleted
        },
        spec_git_status(f) == FileChangeStatus::Untracked <==> !(f.wt_new || f.wt_modified || f.wt_deleted || f.wt_renamed
            || f.index_new || f.index_modified || f.index_deleted),
{
}

/// Maps the git status of a file to its change status (see
/// [`spec_git_status`]).
pub fn map_git_status(flags: &GitStatusFlags) -> (r: FileChangeStatus)
    ensures
        r == spec_git_status(*flags),
{
    if flags.wt_new {
        FileChangeStatus::Added
    } else if flags.wt_modified {
        FileChangeStatus::Modified
    } else if flags.wt_deleted {
        FileChangeStatus::Deleted
    } else if flags.wt_renamed {
        FileChangeStatus::Modified
    } else if flags.index_new {
        FileChangeStatus::Added
    } else if flags.index_modified {
        FileChangeStatus::Modified
    } else if flags.index_deleted {
        FileChangeStatus::Deleted
    } else {
        FileChangeStatus::Untracked
    }
}

/// `name` is a whole `/`-separated component of `p` starting at `i`.
pub open spec fn component_at(p: Seq<char>, name: Seq<char>, i: int) -> bool {
    &&& occurs_at(p, name, i)
    &&& (i == 0 || p[i - 1] == '/')
    &&& (i + name.len() == p.len() || p[i + name.len()] == '/')
}

/// `name` is one of the components of the path `p`.
pub open spec fn has_component(p: Seq<char>, name: Seq<char>) -> bool {
    exists|i: int| component_at(p, name, i)
}

/// A path is left out of change detection when one of its components is
/// `.git`, `target`, `node_modules`, `.idea` or `.vscode`.
pub open spec fn spec_should_exclude(p: Seq<char>) -> bool {
    has_component(p, ".git"@) || has_component(p, "target"@) || has_component(p, "node_modules"@)
        || has_component(p, ".idea"@) || has_component(p, ".vscode"@)
}

fn component_check(p: &[char], n: &[char], i: usize) -> (r: bool)
    requires
        i + n.len() <= p.len(),
    ensures
        r == component_at(p@, n@, i as int),
{
    chars_match_at(p, n, i) && (i == 0 || p[i - 1] == '/') && (i + n.len() == p.len() || p[i + n.len()] == '/')
}

fn component_in(p: &[char], name: &str) -> (r: bool)
    ensures
        r == has_component(p@, name@),
{
    let n = chars_of(name);
    if n.len() > p.len() {
        proof {
            assert forall|i: int| !component_at(p@, name@, i) by {}
        }
        return false;
    }
    let last = p.len() - n.len();
    let mut i: usize = 0;
    while i < last
        invariant
            n@ == name@,
            last == p.len() - n.len(),
            i <= last,
            forall|k: int| 0 <= k < i ==> !component_at(p@, name@, k),
        decreases last - i,
    {
        if component_check(p, n.as_slice(), i) {
            return true;
        }
        i = i + 1;
    }
    if component_check(p, n.as_slice(), last) {
        return true;
    }
    proof {
        assert forall|k: int| !component_at(p@, name@, k) by {
            if k > last {
                assert(!occurs_at(p@, name@, k));
            }
        }
    }
    false
}

/// Whether `name` is a whole component of the path.
pub fn path_has_component(path: &str, name: &str) -> (r: bool)
    ensures
        r == has_component(path@, name@),
{
    let p = chars_of(path);
    component_in(&p, name)
}

/// Whether the path is left out of change detection (see
/// [`spec_should_exclude`]).
pub fn should_exclude(path: &str) -> (r: bool)
    ensures
        r == spec_should_exclude(path@),
{
    let p = chars_of(path);
    component_in(&p, ".git") || component_in(&p, "target") || component_in(&p, "node_modules")
        || component_in(&p, ".idea") || component_in(&p, ".vscode")
}

/// The extensions of the files whose changes are indexed.
pub open spec fn indexable_extension(ext: Seq<char>) -> bool {
    ext == "rs"@ || ext == "ts"@ || ext == "js"@ || ext == "tsx"@ || ext == "jsx"@
}

/// Whether a path has one of the indexed extensions (`rs`, `ts`, `js`,
/// `tsx`, `jsx`).
pub fn is_indexable_path(path: &str) -> (r: bool)
    ensures
        r == match spec_path_extension(path@) {
            Some(e) => indexable_extension(e),
            None => false,
        },
{
    match path_extension(path) {
        Some(e) => {
            let exts = vec!["rs", "ts", "js", "tsx", "jsx"];
            let r = str_in(e.as_slice(), &exts);
            proof {
                if indexable_extension(e@) {
                    if e@ == "rs"@ { assert(exts@[0]@ == e@); }
                    if e@ == "ts"@ { assert(exts@[1]@ == e@); }
                    if e@ == "js"@ { assert(exts@[2]@ == e@); }
                    if e@ == "tsx"@ { assert(exts@[3]@ == e@); }
                    if e@ == "jsx"@ { assert(exts@[4]@ == e@); }
                }
            }
            r
        },
        None => false,
    }
}

/// The 64-bit xxHash3 of a byte string.
pub uninterp spec fn xxh3_64_of(bytes: Seq<u8>) -> u64;

/// `xxhash_rust::xxh3::xxh3_64`: the 64-bit XXH3 hash of the bytes, with
/// the default secret and seed; it depends on the bytes alone.
#[verifier::external_body]
fn xxh3_64(bytes: &[u8]) -> (r: u64)
    ensures
        r == xxh3_64_of(bytes@),
{
    xxhash_rust::xxh3::xxh3_64(bytes)
}

/// The lowercase hex digit for `d < 16`.
pub open spec fn hex_char(d: nat) -> char {
    if d < 10 {
        (('0' as nat) + d) as char
    } else {
        (('a' as nat) + (d - 10)) as char
    }
}

/// The `k` lowest hex digits of `n`, most significant first.
pub open spec fn hex_digits(n: nat, k: nat) -> Seq<char>
    decreases k,
{
    if k == 0 {
        Seq::empty()
    } else {
        hex_digits(n / 16, (k - 1) as nat).push(hex_char(n % 16))
    }
}

fn hex_digit(d: u64) -> (c: char)
    requires
        d < 16,
    ensures
        c == hex_char(d as nat),
{
    if d == 0 { '0' } else if d == 1 { '1' } else if d == 2 { '2' } else if d == 3 { '3' } else if d == 4 { '4' }
    else if d == 5 { '5' } else if d == 6 { '6' } else if d == 7 { '7' } else if d == 8 { '8' } else if d == 9 { '9' }
    else if d == 10 { 'a' } else if d == 11 { 'b' } else if d == 12 { 'c' } else if d == 13 { 'd' } else if d == 14 { 'e' }
    else { 'f' }
}

fn push_hex(s: &mut String, n: u64, k: u64)
    ensures
        final(s)@ == old(s)@ + hex_digits(n as nat, k as nat),
    decreases k,
{
    if k > 0 {
        push_hex(s, n / 16, k - 1);
        string_push(s, hex_digit(n % 16));
        proof { assert(final(s)@ =~= old(s)@ + hex_digits(n as nat, k as nat)); }
    } else {
        proof { assert(final(s)@ =~= old(s)@ + hex_digits(n as nat, k as nat)); }
    }
}

/// The content hash of a file's bytes: their 64-bit xxHash3 as sixteen
/// lowercase hex digits, zero-padded.
pub fn content_hash(bytes: &[u8]) -> (r: String)
    ensures
        r@ == hex_digits(xxh3_64_of(bytes@) as nat, 16),
{
    let h = xxh3_64(bytes);
    let mut s = String::new();
    push_hex(&mut s, h, 16);
    proof { assert(s@ =~= hex_digits(h as nat, 16)); }
    s
}

/// A cache entry as characters: path and content hash.
pub open spec fn cache_entry_view(e: (String, String)) -> (Seq<char>, Seq<char>) {
    (e.0@, e.1@)
}

/// The key of a cache entry: its path.
pub open spec fn cache_key() -> spec_fn((Seq<char>, Seq<char>)) -> Seq<char> {
    |e: (Seq<char>, Seq<char>)| e.0
}

/// The content hashes last seen, by file path.
pub struct HashCache {
    entries: Vec<(String, String)>,
}

impl HashCache {
    /// The cached entries as characters.
    pub closed spec fn entry_views(&self) -> Seq<(Seq<char>, Seq<char>)> {
        self.entries@.map_values(|e: (String, String)| cache_entry_view(e))
    }

    /// The cache as a map from path to content hash.
    pub closed spec fn view_map(&self) -> Map<Seq<char>, Seq<char>> {
        assoc_map(self.entry_views(), cache_key()).map_values(|e: (Seq<char>, Seq<char>)| e.1)
    }

    /// No path is cached twice.
    pub closed spec fn wf(&self) -> bool {
        assoc_unique(self.entry_views(), cache_key())
    }

    /// An empty cache.
    pub fn new() -> (c: Self)
        ensures
            c.wf(),
            c.view_map() == Map::<Seq<char>, Seq<char>>::empty(),
    {
        let c = HashCache { entries: Vec::new() };
        proof {
            assert(c.entry_views() =~= Seq::<(Seq<char>, Seq<char>)>::empty());
            assert(c.view_map() =~= Map::<Seq<char>, Seq<char>>::empty());
        }
        c
    }

    /// The cached paths with their hashes.
    pub fn entries(&self) -> (r: &Vec<(String, String)>)
        ensures
            r@.map_values(|e: (String, String)| cache_entry_view(e)) == self.entry_views(),
    {
        &self.entries
    }

    fn position(&self, path: &str) -> (r: Option<usize>)
        ensures
            match r {
                Some(j) => j < self.entries.len() && self.entries@[j as int].0@ == path@,
                None => forall|j: int| 0 <= j < self.entries.len() ==> self.entries@[j].0@ != path@,
            },
    {
        let mut j: usize = 0;
        while j < self.entries.len()
            invariant
                j <= self.entries.len(),
                forall|i: int| 0 <= i < j ==> self.entries@[i].0@ != path@,
            decreases self.entries.len() - j,
        {
            if str_eq(self.entries[j].0.as_str(), path) {
                return Some(j);
            }
            j = j + 1;
        }
        None
    }

    /// Records the content hash just computed for a file and reports the
    /// change it shows: none when the cached hash is the same, `Modified`
    /// when it differs, `Added` when the file was not cached. The cache then
    /// holds the new hash.
    pub fn observe(&mut self, path: &str, hash: &str) -> (r: Option<FileChange>)
        requires
            old(self).wf(),
        ensures
            final(self).wf(),
            old(self).view_map().contains_key(path@) && old(self).view_map()[path@] == hash@ ==> r is None
                && final(self).view_map() == old(self).view_map(),
            !(old(self).view_map().contains_key(path@) && old(self).view_map()[path@] == hash@) ==> {
                &&& r is Some
                &&& r.unwrap().path@ == path@
                &&& r.unwrap().status == if old(self).view_map().contains_key(path@) {
                    FileChangeStatus::Modified
                } else {
                    FileChangeStatus::Added
                }
                &&& r.unwrap().content_hash is Some && r.unwrap().content_hash.unwrap()@ == hash@
                &&& final(self).view_map() == old(self).view_map().insert(path@, hash@)
            },
    {
        let ghost old_views = self.entry_views();
        match self.position(path) {
            Some(j) => {
                proof {
                    lemma_assoc_at(old_views, cache_key(), j as int);
                }
                if str_eq(self.entries[j].1.as_str(), hash) {
                    return None;
                }
                let e = (str_to_string(path), str_to_string(hash));
                self.entries.set(j, e);
                proof {
                    assert(self.entry_views() =~= old_views.update(j as int, cache_entry_view(e)));
                    lemma_assoc_update(old_views, cache_key(), j as int, cache_entry_view(e));
                    assert(self.view_map() =~= old(self).view_map().insert(path@, hash@));
                }
                Some(FileChange { path: str_to_string(path), status: FileChangeStatus::Modified, content_hash: Some(str_to_string(hash)) })
            },
            None => {
                let e = (str_to_string(path), str_to_string(hash));
                self.entries.push(e);
                proof {
                    assert(self.entry_views() =~= old_views.push(cache_entry_view(e)));
                    assert forall|i: int| 0 <= i < old_views.len() implies (cache_key())(old_views[i]) != (cache_key())(cache_entry_view(e)) by {
                        assert(old_views[i] == cache_entry_view(old(self).entries@[i]));
                    }
                    lemma_assoc_push(old_views, cache_key(), cache_entry_view(e));
                    assert(!assoc_has(old_views, cache_key(), path@)) by {
                        if assoc_has(old_views, cache_key(), path@) {
                            let i = choose|i: int| 0 <= i < old_views.len() && (cache_key())(old_views[i]) == path@;
                            assert(old_views[i] == cache_entry_view(old(self).entries@[i]));
                        }
                    }
                    assert(self.view_map() =~= old(self).view_map().insert(path@, hash@));
                }
                Some(FileChange { path: str_to_string(path), status: FileChangeStatus::Added, content_hash: Some(str_to_string(hash)) })
            },
        }
    }
}

/// A content hash is always sixteen characters, each a lowercase hex digit.
pub proof fn law_hash_shape(n: nat, k: nat)
    ensures
        hex_digits(n, k).len() == k,
        forall|i: int| 0 <= i < k ==> {
            let c = #[trigger] hex_digits(n, k)[i];
            ('0' <= c && c <= '9') || ('a' <= c && c <= 'f')
        },
    decreases k,
{
    if k > 0 {
        law_hash_shape(n / 16, (k - 1) as nat);
        let d = n % 16;
        assert(d < 16);
        let c = hex_char(d);
        if d < 10 {
            assert(('0' as nat) + d <= ('9' as nat));
        } else {
            assert(('a' as nat) + (d - 10) <= ('f' as nat));
        }
        assert forall|i: int| 0 <= i < k implies {
            let c = #[trigger] hex_digits(n, k)[i];
            ('0' <= c && c <= '9') || ('a' <= c && c <= 'f')
        } by {
            if i < k - 1 {
                assert(hex_digits(n, k)[i] == hex_digits(n / 16, (k - 1) as nat)[i]);
            }
        }
    }
}

/// A change is reported once: after a file's hash has been recorded,
/// recording the same hash again reports no change and leaves the cache as
/// it is.
pub proof fn law_observe_same_hash_twice(before: Map<Seq<char>, Seq<char>>, after: Map<Seq<char>, Seq<char>>, path: Seq<char>, hash: Seq<char>)
    requires
        after == before.insert(path, hash),
    ensures
        after.contains_key(path) && after[path] == hash,
        after.insert(path, hash) == after,
{
    assert(after.insert(path, hash) =~= after);
}

} // verus!
