use vstd::prelude::*;

use crate::bytes::copy_bytes;

use crate::path::{
    all_names, is_name, lemma_file_name_of_join, ancestors, copy_components, law_paths_stay_inside_root, file_name, join_abs, last_index_of, join_components, name_of, normalize,
    normalize_path, normalized_path, parent_of, parent_path,
};
use crate::text::{
    chars_eq, chars_lt, chars_to_string, copy_chars, lemma_lex_asymmetric, lemma_lex_irreflexive,
    lemma_lex_total, lemma_lex_transitive, lex_lt, seqs_view, sort_names, sorted, str_to_chars,
    strictly_sorted,
};

verus! {

/// Path, size and dirty flag of one virtual file.
#[derive(Debug, Clone, PartialEq, Eq)]
pub struct FileInfo {
    pub path: String,
    pub size: usize,
    pub dirty: bool,
}

/// Contents of one virtual file and whether the guest changed it since the
/// host last collected it.
#[verifier::ext_equal]
pub struct FileView {
    pub data: Seq<u8>,
    pub dirty: bool,
}

/// An open file handle: the file it names, its position and its access rights.
#[verifier::ext_equal]
pub struct HandleView {
    pub path: Seq<char>,
    pub offset: usize,
    pub readable: bool,
    pub writable: bool,
}

/// The abstract virtual file system: file paths in string order with their
/// contents, the directory paths, the current directory as a list of
/// components, and the three handle slots.
#[verifier::ext_equal]
pub struct VfsView {
    pub paths: Seq<Seq<char>>,
    pub files: Seq<FileView>,
    pub directories: Seq<Seq<char>>,
    pub cwd: Seq<Seq<char>>,
    pub handles: Seq<Option<HandleView>>,
}

/// A stored path: the root, or a path with a last name.
pub open spec fn named(p: Seq<char>) -> bool {
    p == seq!['/'] || file_name(p) is Some
}

/// The map from keys to values of two parallel sequences.
pub open spec fn map_of<V>(keys: Seq<Seq<char>>, vals: Seq<V>) -> Map<Seq<char>, V> {
    Map::new(|k: Seq<char>| keys.contains(k), |k: Seq<char>| vals[keys.index_of(k)])
}

/// Names of the entries of `entries` whose parent is `dir` (skipping `dir`
/// itself when `skip_self`), in the order of `entries`.
pub open spec fn child_names(entries: Seq<Seq<char>>, dir: Seq<char>, skip_self: bool) -> Seq<Seq<char>>
    decreases entries.len(),
{
    if entries.len() == 0 {
        seq![]
    } else {
        let rest = child_names(entries.drop_last(), dir, skip_self);
        let e = entries.last();
        if (!skip_self || e != dir) && parent_path(e) == dir {
            match file_name(e) {
                Some(n) => rest.push(n),
                None => rest,
            }
        } else {
            rest
        }
    }
}

/// Number of entries of `entries` whose parent is `dir` (skipping `dir`
/// itself when `skip_self`).
pub open spec fn child_count(entries: Seq<Seq<char>>, dir: Seq<char>, skip_self: bool) -> nat
    decreases entries.len(),
{
    if entries.len() == 0 {
        0
    } else {
        let rest = child_count(entries.drop_last(), dir, skip_self);
        let e = entries.last();
        if (!skip_self || e != dir) && parent_path(e) == dir {
            rest + 1
        } else {
            rest
        }
    }
}

/// The dirty files, in path order, with their contents.
pub open spec fn dirty_list(paths: Seq<Seq<char>>, files: Seq<FileView>) -> Seq<(Seq<char>, Seq<u8>)>
    decreases paths.len(),
{
    if paths.len() == 0 || files.len() == 0 {
        seq![]
    } else {
        let rest = dirty_list(paths.drop_last(), files.drop_last());
        if files.last().dirty {
            rest.push((paths.last(), files.last().data))
        } else {
            rest
        }
    }
}

/// The same files, all marked clean.
pub open spec fn all_clean(files: Seq<FileView>) -> Seq<FileView> {
    files.map_values(|f: FileView| FileView { dirty: false, ..f })
}

/// The character sequences of a vector of strings.
pub open spec fn strings_view(v: Seq<String>) -> Seq<Seq<char>> {
    v.map_values(|s: String| s@)
}

/// The path/content pairs of a vector of (path, bytes) pairs.
pub open spec fn pairs_view(v: Seq<(String, Vec<u8>)>) -> Seq<(Seq<char>, Seq<u8>)> {
    v.map_values(|p: (String, Vec<u8>)| (p.0@, p.1@))
}

/// The first free handle slot.
pub open spec fn first_free(handles: Seq<Option<HandleView>>) -> Option<int> {
    if handles[0] is None {
        Some(0)
    } else if handles[1] is None {
        Some(1)
    } else if handles[2] is None {
        Some(2)
    } else {
        None
    }
}

/// True when the mode string starts with `c`.
pub open spec fn mode_starts(mode: Seq<char>, c: char) -> bool {
    mode.len() > 0 && mode[0] == c
}

/// `data` written at `offset`, the file first grown with zero bytes when the
/// write reaches past its end.
pub open spec fn spliced(old: Seq<u8>, offset: int, data: Seq<u8>) -> Seq<u8> {
    let end = offset + data.len();
    let grown = if end > old.len() {
        old + Seq::new((end - old.len()) as nat, |_i: int| 0u8)
    } else {
        old
    };
    grown.take(offset) + data + grown.skip(end)
}

/// A mode string grants reading: it starts with 'r' or holds '+'.
pub open spec fn mode_readable(mode: Seq<char>) -> bool {
    mode_starts(mode, 'r') || mode.contains('+')
}

/// A mode string grants writing: it starts with 'w' or 'a' or holds '+'.
pub open spec fn mode_writable(mode: Seq<char>) -> bool {
    mode_starts(mode, 'w') || mode_starts(mode, 'a') || mode.contains('+')
}

/// Opening with `mode` (re)creates the file as empty: "w" modes always, "a"
/// modes when the file does not exist.
pub open spec fn mode_creates(mode: Seq<char>, exists: bool) -> bool {
    mode_starts(mode, 'w') || (mode_starts(mode, 'a') && !exists)
}

/// The handle view with a new offset.
pub open spec fn moved(h: HandleView, offset: usize) -> HandleView {
    HandleView { offset, ..h }
}

impl VfsView {
    /// The empty file system: no file, the root as the only directory and
    /// the current one, no open handle.
    pub open spec fn empty() -> VfsView {
        VfsView {
            paths: seq![],
            files: seq![],
            directories: seq![seq!['/']],
            cwd: seq![],
            handles: seq![None, None, None],
        }
    }

    /// The same file system with one handle slot replaced.
    pub open spec fn with_handle(self, slot: int, h: Option<HandleView>) -> VfsView {
        VfsView { handles: self.handles.update(slot, h), ..self }
    }

    pub open spec fn wf(self) -> bool {
        &&& self.paths.len() == self.files.len()
        &&& strictly_sorted(self.paths)
        &&& self.directories.no_duplicates()
        &&& self.handles.len() == 3
        &&& all_names(self.cwd)
        &&& forall|i: int| 0 <= i < self.paths.len() ==> named(#[trigger] self.paths[i])
        &&& forall|i: int| 0 <= i < self.directories.len() ==> named(#[trigger] self.directories[i])
    }

    /// Files by path.
    pub open spec fn file_map(self) -> Map<Seq<char>, FileView> {
        map_of(self.paths, self.files)
    }

    /// The set of directories.
    pub open spec fn dir_set(self) -> Set<Seq<char>> {
        self.directories.to_set()
    }

    /// The absolute path that `path` names from the current directory.
    pub open spec fn resolve_path(self, path: Seq<char>) -> Option<Seq<char>> {
        normalized_path(self.cwd, path)
    }

    /// The open file behind a handle byte, if any.
    pub open spec fn handle(self, handle: u8) -> Option<HandleView> {
        if 0x80 <= handle <= 0x82 {
            self.handles[(handle & 3) as int]
        } else {
            None
        }
    }

    /// A read through `handle` would start inside its file (or does not
    /// reach a file at all).
    pub open spec fn read_in_bounds(self, handle: u8) -> bool {
        match self.handle(handle) {
            Some(h) => h.readable && self.file_map().contains_key(h.path) ==> h.offset
                <= self.file_map()[h.path].data.len(),
            None => true,
        }
    }

    /// The same file system with the file under `path` replaced.
    pub open spec fn with_file(self, path: Seq<char>, f: FileView) -> Map<Seq<char>, FileView> {
        self.file_map().insert(path, f)
    }
}

/// Slot of a handle byte: 0x80..=0x82 name slots 0..=2.
pub open spec fn spec_handle_slot(handle: u8) -> Option<int> {
    if 0x80 <= handle <= 0x82 {
        Some((handle & 3) as int)
    } else {
        None
    }
}

#[derive(Debug, Clone)]
struct FileEntry {
    data: Vec<u8>,
    dirty: bool,
}

#[derive(Debug, Clone)]
struct OpenFile {
    path: Vec<char>,
    offset: usize,
    readable: bool,
    writable: bool,
}

spec fn entries_view(entries: Seq<FileEntry>) -> Seq<FileView> {
    entries.map_values(|e: FileEntry| FileView { data: e.data@, dirty: e.dirty })
}

spec fn handle_view(h: Option<OpenFile>) -> Option<HandleView> {
    match h {
        Some(o) => Some(
            HandleView { path: o.path@, offset: o.offset, readable: o.readable, writable: o.writable },
        ),
        None => None,
    }
}

spec fn handles_view(handles: Seq<Option<OpenFile>>) -> Seq<Option<HandleView>> {
    handles.map_values(|h: Option<OpenFile>| handle_view(h))
}

/// A sandboxed in-memory file system: paths are case-insensitive, use '/' or
/// '\\' as separators and cannot escape the root.
#[derive(Debug, Clone)]
pub struct VirtualFileSystem {
    paths: Vec<Vec<char>>,
    entries: Vec<FileEntry>,
    directories: Vec<Vec<char>>,
    cwd: Vec<Vec<char>>,
    handles: Vec<Option<OpenFile>>,
}

impl View for VirtualFileSystem {
    type V = VfsView;

    closed spec fn view(&self) -> VfsView {
        VfsView {
            paths: seqs_view(self.paths@),
            files: entries_view(self.entries@),
            directories: seqs_view(self.directories@),
            cwd: seqs_view(self.cwd@),
            handles: handles_view(self.handles@),
        }
    }
}

proof fn lemma_sorted_no_dup(s: Seq<Seq<char>>)
    requires
        strictly_sorted(s),
    ensures
        s.no_duplicates(),
{
    assert forall|i: int, j: int| 0 <= i < s.len() && 0 <= j < s.len() && i != j implies s[i] != s[j] by {
        if i < j {
            lemma_lex_irreflexive(s[i]);
        } else {
            lemma_lex_irreflexive(s[j]);
        }
    }
}

proof fn lemma_map_of_index<V>(keys: Seq<Seq<char>>, vals: Seq<V>, i: int)
    requires
        keys.no_duplicates(),
        0 <= i < keys.len(),
    ensures
        map_of(keys, vals).contains_key(keys[i]),
        map_of(keys, vals)[keys[i]] == vals[i],
{
    assert(keys.contains(keys[i]));
    let j = keys.index_of(keys[i]);
    assert(keys[j] == keys[i]);
}

proof fn lemma_map_of_update<V>(keys: Seq<Seq<char>>, vals: Seq<V>, i: int, v: V)
    requires
        keys.no_duplicates(),
        keys.len() == vals.len(),
        0 <= i < keys.len(),
    ensures
        map_of(keys, vals.update(i, v)) == map_of(keys, vals).insert(keys[i], v),
{
    let a = map_of(keys, vals.update(i, v));
    let b = map_of(keys, vals).insert(keys[i], v);
    assert forall|k: Seq<char>| #[trigger] a.contains_key(k) implies b.contains_key(k) && a[k] == b[k] by {
        let j = keys.index_of(k);
        assert(keys[j] == k);
        if k != keys[i] {
            let m = map_of(keys, vals);
            assert(m.contains_key(k));
        }
    }
    assert forall|k: Seq<char>| #[trigger] b.contains_key(k) implies a.contains_key(k) by {
        if k == keys[i] {
            assert(keys.contains(keys[i]));
        }
    }
    assert(a =~= b);
}

proof fn lemma_map_of_insert<V>(keys: Seq<Seq<char>>, vals: Seq<V>, i: int, k: Seq<char>, v: V)
    requires
        keys.no_duplicates(),
        keys.len() == vals.len(),
        !keys.contains(k),
        0 <= i <= keys.len(),
    ensures
        map_of(keys.insert(i, k), vals.insert(i, v)) == map_of(keys, vals).insert(k, v),
        keys.insert(i, k).no_duplicates(),
{
    let nk = keys.insert(i, k);
    let nv = vals.insert(i, v);
    assert forall|a: int, b: int| 0 <= a < nk.len() && 0 <= b < nk.len() && a != b implies nk[a]
        != nk[b] by {
        if a == i {
            assert(keys.contains(nk[b]));
        } else if b == i {
            assert(keys.contains(nk[a]));
        }
    }
    let m1 = map_of(nk, nv);
    let m2 = map_of(keys, vals).insert(k, v);
    assert forall|q: Seq<char>| #[trigger] m1.contains_key(q) implies m2.contains_key(q) && m1[q] == m2[q] by {
        let j = nk.index_of(q);
        assert(nk[j] == q);
        if q == k {
            assert(j == i);
        } else {
            let jj = if j < i { j } else { j - 1 };
            assert(keys[jj] == q);
            assert(keys.contains(q));
            let m = map_of(keys, vals);
            assert(m[q] == vals[keys.index_of(q)]);
            assert(keys.index_of(q) == jj);
        }
    }
    assert forall|q: Seq<char>| #[trigger] m2.contains_key(q) implies m1.contains_key(q) by {
        if q == k {
            assert(nk[i] == k);
        } else {
            let j = keys.index_of(q);
            assert(keys[j] == q);
            if j < i {
                assert(nk[j] == q);
            } else {
                assert(nk[j + 1] == q);
            }
        }
    }
    assert(m1 =~= m2);
}

proof fn lemma_map_of_remove<V>(keys: Seq<Seq<char>>, vals: Seq<V>, i: int)
    requires
        keys.no_duplicates(),
        keys.len() == vals.len(),
        0 <= i < keys.len(),
    ensures
        map_of(keys.remove(i), vals.remove(i)) == map_of(keys, vals).remove(keys[i]),
        keys.remove(i).no_duplicates(),
{
    let nk = keys.remove(i);
    let nv = vals.remove(i);
    let m1 = map_of(nk, nv);
    let m2 = map_of(keys, vals).remove(keys[i]);
    assert forall|q: Seq<char>| #[trigger] m1.contains_key(q) implies m2.contains_key(q) && m1[q] == m2[q] by {
        let j = nk.index_of(q);
        assert(nk[j] == q);
        let jj = if j < i { j } else { j + 1 };
        assert(keys[jj] == q);
        assert(keys.contains(q));
        assert(keys.index_of(q) == jj);
    }
    assert forall|q: Seq<char>| #[trigger] m2.contains_key(q) implies m1.contains_key(q) by {
        let j = keys.index_of(q);
        assert(keys[j] == q);
        if j < i {
            assert(nk[j] == q);
        } else {
            assert(nk[j - 1] == q);
        }
    }
    assert(m1 =~= m2);
}

fn handle_slot(handle: u8) -> (slot: Option<usize>)
    ensures
        match spec_handle_slot(handle) {
            Some(s) => slot == Some(s as usize) && 0 <= s < 3,
            None => slot is None,
        },
{
    if 0x80 <= handle && handle <= 0x82 {
        let h = handle;
        assert(h & 3 < 3) by (bit_vector)
            requires
                0x80 <= h <= 0x82,
        ;
        Some((handle & 3) as usize)
    } else {
        None
    }
}

impl Default for VirtualFileSystem {
    /// An empty file system whose only directory is the root, which is also
    /// the current directory; no handle is open.
    fn default() -> (fs: VirtualFileSystem)
        ensures
            fs.wf(),
            fs@ == VfsView::empty(),
    {
        let mut root: Vec<char> = Vec::new();
        root.push('/');
        let mut directories: Vec<Vec<char>> = Vec::new();
        directories.push(root);
        let mut handles: Vec<Option<OpenFile>> = Vec::new();
        handles.push(None);
        handles.push(None);
        handles.push(None);
        let fs = VirtualFileSystem {
            paths: Vec::new(),
            entries: Vec::new(),
            directories,
            cwd: Vec::new(),
            handles,
        };
        assert(fs@.directories =~= seq![seq!['/']]);
        assert(fs@.handles =~= seq![None::<HandleView>, None, None]);
        assert(fs@.paths =~= Seq::<Seq<char>>::empty());
        assert(fs@.cwd =~= Seq::<Seq<char>>::empty());
        fs
    }
}


/// A path that resolves from a current directory of plain names is made of
/// plain names, and is the root or ends in a name.
proof fn lemma_resolved_named(cwd: Seq<Seq<char>>, path: Seq<char>)
    requires
        all_names(cwd),
    ensures
        normalize(cwd, path) matches Some(c) ==> all_names(c) && named(join_abs(c)),
{
    law_paths_stay_inside_root(cwd, path);
    if let Some(c) = normalize(cwd, path) {
        if c.len() > 0 {
            lemma_file_name_of_join(c);
        }
    }
}

/// A leading part of a list of plain names is a list of plain names.
proof fn lemma_names_take(c: Seq<Seq<char>>, n: int)
    requires
        all_names(c),
        0 <= n <= c.len(),
    ensures
        all_names(c.take(n)),
{
    assert forall|i: int| 0 <= i < c.take(n).len() implies is_name(#[trigger] c.take(n)[i]) by {
        assert(c.take(n)[i] == c[i]);
    }
}

impl VirtualFileSystem {
    /// The internal invariant: files in strict path order, each directory
    /// listed once, three handle slots.
    pub closed spec fn wf(&self) -> bool {
        &&& self@.wf()
        &&& self.paths@.len() == self.entries@.len()
        &&& self.handles@.len() == 3
    }

    pub proof fn lemma_wf(&self)
        requires
            self.wf(),
        ensures
            self@.wf(),
    {
    }

    proof fn lemma_view_lengths(&self)
        requires
            self.wf(),
        ensures
            self@.paths.len() == self.paths@.len(),
            self@.files.len() == self.entries@.len(),
            self@.handles.len() == self.handles@.len(),
            self@.directories.len() == self.directories@.len(),
            self@.paths.no_duplicates(),
    {
        lemma_sorted_no_dup(self@.paths);
    }

    fn find_file(&self, path: &[char]) -> (index: Option<usize>)
        requires
            self.wf(),
        ensures
            index matches Some(i) ==> i < self@.paths.len() && self@.paths[i as int] == path@,
            index is None ==> !self@.paths.contains(path@),
    {
        let mut i: usize = 0;
        while i < self.paths.len()
            invariant
                self.wf(),
                i <= self.paths@.len(),
                forall|j: int| 0 <= j < i ==> self@.paths[j] != path@,
            decreases self.paths@.len() - i,
        {
            if chars_eq(self.paths[i].as_slice(), path) {
                return Some(i);
            }
            i += 1;
        }
        None
    }

    fn find_directory(&self, path: &[char]) -> (index: Option<usize>)
        requires
            self.wf(),
        ensures
            index matches Some(i) ==> i < self@.directories.len() && self@.directories[i as int] == path@,
            index is None ==> !self@.directories.contains(path@),
    {
        let mut i: usize = 0;
        while i < self.directories.len()
            invariant
                self.wf(),
                i <= self.directories@.len(),
                forall|j: int| 0 <= j < i ==> self@.directories[j] != path@,
            decreases self.directories@.len() - i,
        {
            if chars_eq(self.directories[i].as_slice(), path) {
                return Some(i);
            }
            i += 1;
        }
        None
    }

    /// Inserts a directory; true when it was not there before.
    fn add_directory(&mut self, path: Vec<char>) -> (added: bool)
        requires
            old(self).wf(),
            named(path@),
        ensures
            final(self).wf(),
            added == !old(self)@.dir_set().contains(path@),
            final(self)@.dir_set() == old(self)@.dir_set().insert(path@),
            final(self)@.paths == old(self)@.paths,
            final(self)@.files == old(self)@.files,
            final(self)@.cwd == old(self)@.cwd,
            final(self)@.handles == old(self)@.handles,
    {
        match self.find_directory(path.as_slice()) {
            Some(_) => {
                assert(self@.dir_set() =~= old(self)@.dir_set().insert(path@));
                false
            },
            None => {
                let ghost pv = path@;
                self.directories.push(path);
                assert(self@.directories =~= old(self)@.directories.push(pv));
                assert forall|i: int| 0 <= i < self@.directories.len() implies named(#[trigger] self@.directories[i]) by {
                    if i < old(self)@.directories.len() {
                        assert(self@.directories[i] == old(self)@.directories[i]);
                    }
                }
                assert(self@.dir_set() =~= old(self)@.dir_set().insert(pv)) by {
                    assert forall|d: Seq<char>| self@.dir_set().contains(d) <==> old(self)@.dir_set().insert(
                        pv,
                    ).contains(d) by {
                        if old(self)@.directories.contains(d) {
                            let j = old(self)@.directories.index_of(d);
                            assert(self@.directories[j] == d);
                        }
                        if d == pv {
                            assert(self@.directories[self@.directories.len() - 1] == pv);
                        }
                    }
                }
                true
            },
        }
    }

    /// Creates every directory above the path made of `comps`.
    fn create_parent_directories(&mut self, comps: &Vec<Vec<char>>)
        requires
            old(self).wf(),
            all_names(seqs_view(comps@)),
        ensures
            final(self).wf(),
            final(self)@.dir_set() == old(self)@.dir_set().union(ancestors(seqs_view(comps@))),
            final(self)@.paths == old(self)@.paths,
            final(self)@.files == old(self)@.files,
            final(self)@.cwd == old(self)@.cwd,
            final(self)@.handles == old(self)@.handles,
    {
        let ghost all = seqs_view(comps@);
        let mut prefix: Vec<Vec<char>> = Vec::new();
        let mut i: usize = 0;
        if comps.len() == 0 {
            assert(ancestors(all) =~= Set::empty());
            assert(self@.dir_set() =~= old(self)@.dir_set().union(ancestors(all)));
            return;
        }
        while i < comps.len() - 1
            invariant
                self.wf(),
                comps@.len() >= 1,
                i + 1 <= comps@.len(),
                all == seqs_view(comps@),
                seqs_view(prefix@) == all.take(i as int),
                all_names(all),
                self@.dir_set() == old(self)@.dir_set().union(
                    Set::new(|d: Seq<char>| exists|k: int| 1 <= k <= i && d == join_abs(#[trigger] all.take(k))),
                ),
                self@.paths == old(self)@.paths,
                self@.files == old(self)@.files,
                self@.cwd == old(self)@.cwd,
                self@.handles == old(self)@.handles,
            decreases comps@.len() - i,
        {
            let ghost before = self@.dir_set();
            let c = copy_chars(comps[i].as_slice());
            let ghost cv = c@;
            let ghost pre = seqs_view(prefix@);
            prefix.push(c);
            assert(seqs_view(prefix@) =~= pre.push(cv));
            assert(cv == all[i as int]);
            assert(seqs_view(prefix@) =~= all.take(i + 1));
            let dir = join_components(&prefix);
            proof {
                lemma_names_take(all, i + 1);
                lemma_file_name_of_join(all.take(i + 1));
            }
            self.add_directory(dir);
            let ghost s_old = Set::new(|d: Seq<char>| exists|k: int| 1 <= k <= i && d == join_abs(#[trigger] all.take(k)));
            let ghost s_new = Set::new(|d: Seq<char>| exists|k: int| 1 <= k <= i + 1 && d == join_abs(#[trigger] all.take(k)));
            assert(s_new =~= s_old.insert(join_abs(all.take(i + 1)))) by {
                assert forall|d: Seq<char>| s_new.contains(d) implies s_old.insert(join_abs(all.take(i + 1))).contains(d) by {
                    let k = choose|k: int| 1 <= k <= i + 1 && d == join_abs(#[trigger] all.take(k));
                    if k <= i {
                        assert(s_old.contains(d));
                    }
                }
                assert(s_new.contains(join_abs(all.take(i + 1))));
            }
            assert(self@.dir_set() =~= old(self)@.dir_set().union(s_new));
            i += 1;
        }
        assert(ancestors(all) =~= Set::new(|d: Seq<char>| exists|k: int| 1 <= k <= i && d == join_abs(#[trigger] all.take(k))));
    }

    /// Stores `entry` under `path`, replacing a file already there.
    fn put_file(&mut self, path: Vec<char>, entry: FileEntry)
        requires
            old(self).wf(),
            named(path@),
        ensures
            final(self).wf(),
            final(self)@.file_map() == old(self)@.file_map().insert(
                path@,
                FileView { data: entry.data@, dirty: entry.dirty },
            ),
            final(self)@.directories == old(self)@.directories,
            final(self)@.cwd == old(self)@.cwd,
            final(self)@.handles == old(self)@.handles,
    {
        let ghost fv = FileView { data: entry.data@, dirty: entry.dirty };
        let ghost pv = path@;
        proof {
            self.lemma_view_lengths();
        }
        let mut i: usize = 0;
        while i < self.paths.len()
            invariant
                self.wf(),
                *self == *old(self),
                pv == path@,
                fv == (FileView { data: entry.data@, dirty: entry.dirty }),
                i <= self.paths@.len(),
                forall|j: int| 0 <= j < i ==> lex_lt(#[trigger] self@.paths[j], pv),
            ensures
                i <= self.paths@.len(),
                forall|j: int| 0 <= j < i ==> lex_lt(#[trigger] self@.paths[j], pv),
                i < self.paths@.len() ==> lex_lt(pv, self@.paths[i as int]),
                self.wf(),
                *self == *old(self),
            decreases self.paths@.len() - i,
        {
            assert(self@.paths[i as int] == self.paths@[i as int]@);
            if chars_eq(self.paths[i].as_slice(), path.as_slice()) {
                let ghost files = self@.files;
                let ghost ev = entry;
                self.entries.set(i, entry);
                proof {
                    assert(self.entries@[i as int] == ev);
                    assert(self@.files[i as int] == fv);
                    assert forall|j: int| 0 <= j < files.len() && j != i implies self@.files[j] == files[j] by {
                        assert(self.entries@[j] == old(self).entries@[j]);
                    }
                    assert(self@.files =~= files.update(i as int, fv));
                    lemma_sorted_no_dup(self@.paths);
                    lemma_map_of_update(self@.paths, files, i as int, fv);
                }
                return;
            }
            if chars_lt(path.as_slice(), self.paths[i].as_slice()) {
                assert(lex_lt(pv, self@.paths[i as int]));
                break;
            }
            proof {
                lemma_lex_total(pv, self@.paths[i as int]);
            }
            i += 1;
        }
        let ghost paths = self@.paths;
        let ghost files = self@.files;
        proof {
            lemma_sorted_no_dup(paths);
            assert(!paths.contains(pv)) by {
                if paths.contains(pv) {
                    let j = paths.index_of(pv);
                    if j < i {
                        lemma_lex_irreflexive(pv);
                    } else {
                        if j > i {
                            lemma_lex_transitive(pv, paths[i as int], paths[j]);
                        }
                        lemma_lex_irreflexive(pv);
                    }
                }
            }
        }
        self.paths.insert(i, path);
        self.entries.insert(i, entry);
        proof {
            assert(self@.paths =~= paths.insert(i as int, pv));
            assert(self@.files =~= files.insert(i as int, fv));
            lemma_map_of_insert(paths, files, i as int, pv, fv);
            let np = self@.paths;
            assert forall|k: int| 0 <= k < np.len() implies named(#[trigger] np[k]) by {
                if k < i {
                    assert(np[k] == paths[k]);
                } else if k > i {
                    assert(np[k] == paths[k - 1]);
                }
            }
            assert forall|a: int, b: int| 0 <= a < b < np.len() implies lex_lt(#[trigger] np[a], #[trigger] np[b]) by {
                if b == i {
                } else if a == i {
                    if i < paths.len() {
                        if b - 1 > i {
                            lemma_lex_transitive(pv, paths[i as int], paths[b - 1]);
                        }
                    }
                } else if a < i && b > i {
                    assert(lex_lt(paths[a], paths[b - 1]));
                } else if a > i {
                    assert(lex_lt(paths[a - 1], paths[b - 1]));
                }
            }
        }
    }
}

impl VirtualFileSystem {
    /// Stores a file under `path` (clean), creating its parent directories;
    /// false when the path is refused.
    pub fn import_file(&mut self, path: &str, data: Vec<u8>) -> (ok: bool)
        requires
            old(self).wf(),
        ensures
            final(self).wf(),
            old(self)@.imported(path@, data@, ok, final(self)@),
    {
        let comps = match normalize_path(&self.cwd, path) {
            Some(c) => c,
            None => return false,
        };
        proof {
            lemma_resolved_named(self@.cwd, path@);
        }
        self.create_parent_directories(&comps);
        let key = join_components(&comps);
        self.put_file(key, FileEntry { data, dirty: false });
        true
    }

    /// The contents of the file that `path` names.
    pub fn file(&self, path: &str) -> (data: Option<&[u8]>)
        requires
            self.wf(),
        ensures
            match self@.file_at(path@) {
                Some(d) => data matches Some(v) && v@ == d,
                None => data is None,
            },
    {
        let comps = match normalize_path(&self.cwd, path) {
            Some(c) => c,
            None => return None,
        };
        let key = join_components(&comps);
        match self.find_file(key.as_slice()) {
            Some(i) => {
                proof {
                    self.lemma_view_lengths();
                    lemma_map_of_index(self@.paths, self@.files, i as int);
                }
                Some(self.entries[i].data.as_slice())
            },
            None => None,
        }
    }

    /// Every file, in path order, with its size and dirty flag.
    pub fn files(&self) -> (infos: Vec<FileInfo>)
        requires
            self.wf(),
        ensures
            infos@.len() == self@.paths.len(),
            forall|i: int| 0 <= i < infos@.len() ==> {
                &&& (#[trigger] infos@[i]).path@ == self@.paths[i]
                &&& infos@[i].size == self@.files[i].data.len()
                &&& infos@[i].dirty == self@.files[i].dirty
            },
    {
        let mut infos: Vec<FileInfo> = Vec::new();
        let mut i: usize = 0;
        while i < self.paths.len()
            invariant
                self.wf(),
                i <= self.paths@.len(),
                infos@.len() == i,
                forall|j: int| 0 <= j < i ==> {
                    &&& (#[trigger] infos@[j]).path@ == self@.paths[j]
                    &&& infos@[j].size == self@.files[j].data.len()
                    &&& infos@[j].dirty == self@.files[j].dirty
                },
            decreases self.paths@.len() - i,
        {
            let path = chars_to_string(self.paths[i].as_slice());
            infos.push(FileInfo { path, size: self.entries[i].data.len(), dirty: self.entries[i].dirty });
            i += 1;
        }
        infos
    }

    /// Hands out the files the guest changed, in path order, and marks every
    /// file clean.
    pub fn take_dirty_files(&mut self) -> (dirty: Vec<(String, Vec<u8>)>)
        requires
            old(self).wf(),
        ensures
            final(self).wf(),
            pairs_view(dirty@) == dirty_list(old(self)@.paths, old(self)@.files),
            final(self)@ == (VfsView { files: all_clean(old(self)@.files), ..old(self)@ }),
    {
        let mut output: Vec<(String, Vec<u8>)> = Vec::new();
        let ghost paths = self@.paths;
        let ghost files = self@.files;
        let mut i: usize = 0;
        while i < self.paths.len()
            invariant
                self.wf(),
                i <= self.paths@.len(),
                paths == old(self)@.paths,
                files == old(self)@.files,
                self@.paths == paths,
                self@.directories == old(self)@.directories,
                self@.cwd == old(self)@.cwd,
                self@.handles == old(self)@.handles,
                self@.files.len() == files.len(),
                forall|j: int| 0 <= j < i ==> #[trigger] self@.files[j] == (FileView { dirty: false, ..files[j] }),
                forall|j: int| i <= j < files.len() ==> #[trigger] self@.files[j] == files[j],
                pairs_view(output@) == dirty_list(paths.take(i as int), files.take(i as int)),
            decreases self.paths@.len() - i,
        {
            proof {
                assert(paths.take(i + 1).drop_last() =~= paths.take(i as int));
                assert(files.take(i + 1).drop_last() =~= files.take(i as int));
            }
            assert(self@.paths[i as int] == self.paths@[i as int]@);
            assert(self@.files[i as int] == files[i as int]);
            assert(self.entries@[i as int].data@ == files[i as int].data);
            if self.entries[i].dirty {
                let path = chars_to_string(self.paths[i].as_slice());
                let data = copy_bytes(self.entries[i].data.as_slice());
                assert(path@ == paths[i as int]);
                assert(data@ == files[i as int].data);
                let ghost before = pairs_view(output@);
                output.push((path, data));
                assert(pairs_view(output@) =~= before.push((paths[i as int], files[i as int].data)));
                let ghost entries_before = self.entries@;
                let ghost fv_before = self@.files;
                let entry = FileEntry { data: copy_bytes(self.entries[i].data.as_slice()), dirty: false };
                self.entries.set(i, entry);
                assert forall|j: int| 0 <= j < files.len() && j != i implies #[trigger] self@.files[j]
                    == fv_before[j] by {
                    assert(self.entries@[j] == entries_before[j]);
                }
                assert(self@.files[i as int] =~= (FileView { dirty: false, ..files[i as int] }));
            } else {
                assert(self@.files[i as int] =~= (FileView { dirty: false, ..files[i as int] }));
            }
            i += 1;
        }
        proof {
            assert(paths.take(paths.len() as int) =~= paths);
            assert(files.take(files.len() as int) =~= files);
            assert(self@.files =~= all_clean(files));
            assert(self@ =~= (VfsView { files: all_clean(old(self)@.files), ..old(self)@ }));
        }
        output
    }

    /// The current directory as an absolute path.
    pub fn current_directory(&self) -> (dir: String)
        ensures
            dir@ == join_abs(self@.cwd),
    {
        let path = join_components(&self.cwd);
        chars_to_string(path.as_slice())
    }

    /// Makes the directory that `path` names current; false when it does not exist.
    pub fn change_directory(&mut self, path: &str) -> (ok: bool)
        requires
            old(self).wf(),
        ensures
            final(self).wf(),
            old(self)@.directory_changed(path@, ok, final(self)@),

    {
        let comps = match normalize_path(&self.cwd, path) {
            Some(c) => c,
            None => return false,
        };
        let key = join_components(&comps);
        match self.find_directory(key.as_slice()) {
            Some(_) => {
                proof {
                    law_paths_stay_inside_root(old(self)@.cwd, path@);
                }
                self.cwd = comps;
                assert(self@ =~= (VfsView { cwd: self@.cwd, ..old(self)@ }));
                true
            },
            None => false,
        }
    }

    /// Creates the directory that `path` names and its parents; true when the
    /// directory itself is new.
    pub fn create_directory(&mut self, path: &str) -> (created: bool)
        requires
            old(self).wf(),
        ensures
            final(self).wf(),
            old(self)@.directory_created(path@, created, final(self)@),

    {
        let comps = match normalize_path(&self.cwd, path) {
            Some(c) => c,
            None => return false,
        };
        proof {
            lemma_resolved_named(self@.cwd, path@);
        }
        self.create_parent_directories(&comps);
        let key = join_components(&comps);
        self.add_directory(key)
    }

    fn remove_file_at(&mut self, i: usize)
        requires
            old(self).wf(),
            i < old(self)@.paths.len(),
        ensures
            final(self).wf(),
            final(self)@.file_map() == old(self)@.file_map().remove(old(self)@.paths[i as int]),
            final(self)@.directories == old(self)@.directories,
            final(self)@.cwd == old(self)@.cwd,
            final(self)@.handles == old(self)@.handles,
    {
        let ghost paths = self@.paths;
        let ghost files = self@.files;
        proof {
            self.lemma_view_lengths();
        }
        self.paths.remove(i);
        self.entries.remove(i);
        proof {
            assert(self@.paths =~= paths.remove(i as int));
            assert(self@.files =~= files.remove(i as int));
            lemma_map_of_remove(paths, files, i as int);
            let np = self@.paths;
            assert forall|a: int, b: int| 0 <= a < b < np.len() implies lex_lt(#[trigger] np[a], #[trigger] np[b]) by {
                let aa = if a < i { a } else { a + 1 };
                let bb = if b < i { b } else { b + 1 };
                assert(np[a] == paths[aa]);
                assert(np[b] == paths[bb]);
            }
        }
    }

    fn has_file_in(&self, dir: &[char]) -> (found: bool)
        requires
            self.wf(),
        ensures
            found == exists|i: int| 0 <= i < self@.paths.len() && parent_path(#[trigger] self@.paths[i]) == dir@,
    {
        let mut i: usize = 0;
        while i < self.paths.len()
            invariant
                self.wf(),
                i <= self.paths@.len(),
                forall|j: int| 0 <= j < i ==> parent_path(#[trigger] self@.paths[j]) != dir@,
            decreases self.paths@.len() - i,
        {
            let parent = parent_of(self.paths[i].as_slice());
            assert(self@.paths[i as int] == self.paths@[i as int]@);
            if chars_eq(parent.as_slice(), dir) {
                return true;
            }
            i += 1;
        }
        false
    }
}

impl VirtualFileSystem {
    fn remove_directory(&mut self, dir: &[char]) -> (removed: bool)
        requires
            old(self).wf(),
        ensures
            final(self).wf(),
            removed == old(self)@.dir_set().contains(dir@),
            final(self)@.dir_set() == old(self)@.dir_set().remove(dir@),
            final(self)@.paths == old(self)@.paths,
            final(self)@.files == old(self)@.files,
            final(self)@.cwd == old(self)@.cwd,
            final(self)@.handles == old(self)@.handles,
    {
        match self.find_directory(dir) {
            Some(i) => {
                let ghost dirs = self@.directories;
                self.directories.remove(i);
                proof {
                    assert(self@.directories =~= dirs.remove(i as int));
                    assert forall|d: Seq<char>| self@.dir_set().contains(d) <==> old(self)@.dir_set().remove(
                        dir@,
                    ).contains(d) by {
                        if self@.directories.contains(d) {
                            let j = self@.directories.index_of(d);
                            let jj = if j < i { j } else { j + 1 };
                            assert(dirs[jj] == d);
                        }
                        if dirs.contains(d) && d != dir@ {
                            let j = dirs.index_of(d);
                            if j < i {
                                assert(self@.directories[j] == d);
                            } else {
                                assert(self@.directories[j - 1] == d);
                            }
                        }
                    }
                    assert(self@.dir_set() =~= old(self)@.dir_set().remove(dir@));
                }
                true
            },
            None => {
                assert(self@.dir_set() =~= old(self)@.dir_set().remove(dir@));
                false
            },
        }
    }

    /// Deletes the file that `path` names, or else the directory it names
    /// when no file lies directly in it; the root cannot be deleted.
    pub fn delete(&mut self, path: &str) -> (deleted: bool)
        requires
            old(self).wf(),
        ensures
            final(self).wf(),
            old(self)@.deleted_result(path@, deleted, final(self)@),

    {
        let comps = match normalize_path(&self.cwd, path) {
            Some(c) => c,
            None => return false,
        };
        let key = join_components(&comps);
        if let Some(i) = self.find_file(key.as_slice()) {
            proof {
                self.lemma_view_lengths();
                lemma_map_of_index(self@.paths, self@.files, i as int);
            }
            self.remove_file_at(i);
            return true;
        }
        let is_root = key.len() == 1 && key[0] == '/';
        assert(is_root <==> key@ =~= seq!['/']);
        if is_root || self.has_file_in(key.as_slice()) {
            return false;
        }
        self.remove_directory(key.as_slice())
    }

    fn count_children(entries: &Vec<Vec<char>>, dir: &[char], skip_self: bool) -> (count: usize)
        ensures
            count == child_count(seqs_view(entries@), dir@, skip_self),
    {
        let ghost all = seqs_view(entries@);
        let mut count: usize = 0;
        let mut i: usize = 0;
        while i < entries.len()
            invariant
                i <= entries@.len(),
                all == seqs_view(entries@),
                count == child_count(all.take(i as int), dir@, skip_self),
                count <= i,
            decreases entries@.len() - i,
        {
            assert(all.take(i + 1).drop_last() =~= all.take(i as int));
            assert(all.take(i + 1).last() == entries@[i as int]@);
            let e = entries[i].as_slice();
            let parent = parent_of(e);
            if (!skip_self || !chars_eq(e, dir)) && chars_eq(parent.as_slice(), dir) {
                count += 1;
            }
            i += 1;
        }
        assert(all.take(all.len() as int) =~= all);
        count
    }

    /// Number of files and directories directly inside the directory that
    /// `path` names, or -1 when there is no such directory.
    pub fn count(&self, path: &str) -> (count: i32)
        requires
            self.wf(),
        ensures
            count == self@.entry_count(path@),
    {
        let comps = match normalize_path(&self.cwd, path) {
            Some(c) => c,
            None => return -1,
        };
        let key = join_components(&comps);
        if self.find_directory(key.as_slice()).is_none() {
            return -1;
        }
        let files = Self::count_children(&self.paths, key.as_slice(), false);
        let directories = Self::count_children(&self.directories, key.as_slice(), true);
        let total = files as u128 + directories as u128;
        total as i32
    }

    fn collect_children(entries: &Vec<Vec<char>>, dir: &[char], skip_self: bool, out: &mut Vec<Vec<char>>)
        ensures
            seqs_view(final(out)@) == seqs_view(old(out)@) + child_names(seqs_view(entries@), dir@, skip_self),
    {
        let ghost all = seqs_view(entries@);
        let ghost start = seqs_view(out@);
        let mut i: usize = 0;
        while i < entries.len()
            invariant
                i <= entries@.len(),
                all == seqs_view(entries@),
                seqs_view(out@) == start + child_names(all.take(i as int), dir@, skip_self),
            decreases entries@.len() - i,
        {
            assert(all.take(i + 1).drop_last() =~= all.take(i as int));
            assert(all.take(i + 1).last() == entries@[i as int]@);
            let e = entries[i].as_slice();
            let parent = parent_of(e);
            if (!skip_self || !chars_eq(e, dir)) && chars_eq(parent.as_slice(), dir) {
                match name_of(e) {
                    Some(n) => {
                        let ghost before = seqs_view(out@);
                        let ghost nv = n@;
                        out.push(n);
                        assert(seqs_view(out@) =~= before.push(nv));
                    },
                    None => {},
                }
            }
            i += 1;
        }
        assert(all.take(all.len() as int) =~= all);
    }

    /// Names of the directories and files directly inside the directory that
    /// `path` names, in string order; empty when the path is refused.
    pub fn list(&self, path: &str) -> (names: Vec<String>)
        requires
            self.wf(),
        ensures
            self@.listing(path@, strings_view(names@)),
    {
        let comps = match normalize_path(&self.cwd, path) {
            Some(c) => c,
            None => return Vec::new(),
        };
        let key = join_components(&comps);
        let mut found: Vec<Vec<char>> = Vec::new();
        Self::collect_children(&self.directories, key.as_slice(), true, &mut found);
        Self::collect_children(&self.paths, key.as_slice(), false, &mut found);
        assert(seqs_view(found@) =~= child_names(self@.directories, key@, true) + child_names(
            self@.paths,
            key@,
            false,
        ));
        let sorted_names = sort_names(found);
        let mut names: Vec<String> = Vec::new();
        let mut i: usize = 0;
        while i < sorted_names.len()
            invariant
                i <= sorted_names@.len(),
                strings_view(names@) == seqs_view(sorted_names@).take(i as int),
            decreases sorted_names@.len() - i,
        {
            let name = chars_to_string(sorted_names[i].as_slice());
            let ghost before = strings_view(names@);
            let ghost nv = name@;
            names.push(name);
            assert(strings_view(names@) =~= before.push(nv));
            assert(seqs_view(sorted_names@).take(i + 1) =~= seqs_view(sorted_names@).take(i as int).push(nv));
            i += 1;
        }
        assert(seqs_view(sorted_names@).take(sorted_names@.len() as int) =~= seqs_view(sorted_names@));
        names
    }
}

impl VirtualFileSystem {
    fn first_free_slot(&self) -> (slot: Option<usize>)
        requires
            self.wf(),
        ensures
            match first_free(self@.handles) {
                Some(i) => slot == Some(i as usize),
                None => slot is None,
            },
    {
        assert(self@.handles[0] == handle_view(self.handles@[0]));
        assert(self@.handles[1] == handle_view(self.handles@[1]));
        assert(self@.handles[2] == handle_view(self.handles@[2]));
        if self.handles[0].is_none() {
            Some(0)
        } else if self.handles[1].is_none() {
            Some(1)
        } else if self.handles[2].is_none() {
            Some(2)
        } else {
            None
        }
    }

    fn set_handle(&mut self, slot: usize, h: Option<OpenFile>)
        requires
            old(self).wf(),
            slot < 3,
        ensures
            final(self).wf(),
            final(self)@ == old(self)@.with_handle(slot as int, handle_view(h)),
    {
        let ghost hv = handle_view(h);
        let ghost before = self.handles@;
        self.handles.set(slot, h);
        assert forall|j: int| 0 <= j < 3 && j != slot implies self@.handles[j] == old(self)@.handles[j] by {
            assert(self.handles@[j] == before[j]);
        }
        assert(self@.handles =~= old(self)@.handles.update(slot as int, hv));
        assert(self@ =~= old(self)@.with_handle(slot as int, hv));
    }

    /// Opens the file that `path` names in a C `fopen` mode and returns its
    /// handle byte (0x80, 0x81 or 0x82).
    pub fn open(&mut self, path: &str, mode: &str) -> (handle: Option<u8>)
        requires
            old(self).wf(),
        ensures
            final(self).wf(),
            old(self)@.opened(path@, mode@, handle, final(self)@),

    {
        let comps = match normalize_path(&self.cwd, path) {
            Some(c) => c,
            None => return None,
        };
        proof {
            lemma_resolved_named(self@.cwd, path@);
        }
        let slot = match self.first_free_slot() {
            Some(s) => s,
            None => return None,
        };
        let key = join_components(&comps);
        let m = str_to_chars(mode);
        let plus = crate::text::chars_contain(m.as_slice(), '+');
        let starts_r = m.len() > 0 && m[0] == 'r';
        let starts_w = m.len() > 0 && m[0] == 'w';
        let starts_a = m.len() > 0 && m[0] == 'a';
        let readable = starts_r || plus;
        let writable = starts_w || starts_a || plus;
        proof {
            self.lemma_view_lengths();
        }
        let exists = self.find_file(key.as_slice()).is_some();
        proof {
            if exists {
                let i = self@.paths.index_of(key@);
                lemma_map_of_index(self@.paths, self@.files, i);
            }
        }
        assert(exists == self@.file_map().contains_key(key@));
        if starts_r && !exists {
            return None;
        }
        let creates = starts_w || (starts_a && !exists);
        if creates {
            self.create_parent_directories(&comps);
            let k = copy_chars(key.as_slice());
            self.put_file(k, FileEntry { data: Vec::new(), dirty: true });
            assert(Seq::<u8>::empty() =~= seq![]);
        }
        if !(creates || exists) || (!readable && !writable) {
            return None;
        }
        proof {
            self.lemma_view_lengths();
        }
        let index = match self.find_file(key.as_slice()) {
            Some(i) => i,
            None => {
                proof {
                    assert(self@.file_map().contains_key(key@));
                }
                return None;
            },
        };
        proof {
            lemma_map_of_index(self@.paths, self@.files, index as int);
        }
        let offset = if starts_a {
            self.entries[index].data.len()
        } else {
            0
        };
        self.set_handle(slot, Some(OpenFile { path: key, offset, readable, writable }));
        let h = slot as u8;
        assert(h < 3 ==> (0x80 | h) >= 0x80 && (0x80 | h) <= 0x82 && (0x80 | h) & 3 == h) by (bit_vector);
        Some(0x80 | slot as u8)
    }

    /// Closes a handle; true when it was open.
    pub fn close(&mut self, handle: u8) -> (closed: bool)
        requires
            old(self).wf(),
        ensures
            final(self).wf(),
            old(self)@.closed_handle(handle, closed, final(self)@),

    {
        let slot = match handle_slot(handle) {
            Some(s) => s,
            None => return false,
        };
        assert(self@.handles[slot as int] == handle_view(self.handles@[slot as int]));
        let was_open = self.handles[slot].is_some();
        self.set_handle(slot, None);
        was_open
    }

    fn open_file_at(&self, slot: usize) -> (found: Option<(usize, usize)>)
        requires
            self.wf(),
            slot < 3,
        ensures
            match self@.handles[slot as int] {
                None => found is None,
                Some(h) => match found {
                    None => !self@.file_map().contains_key(h.path),
                    Some((i, off)) => {
                        &&& i < self@.paths.len()
                        &&& self@.paths[i as int] == h.path
                        &&& off == h.offset
                        &&& self@.file_map().contains_key(h.path)
                        &&& self@.file_map()[h.path] == self@.files[i as int]
                    },
                },
            },
    {
        assert(self@.handles[slot as int] == handle_view(self.handles@[slot as int]));
        match &self.handles[slot] {
            None => None,
            Some(open) => {
                proof {
                    self.lemma_view_lengths();
                }
                match self.find_file(open.path.as_slice()) {
                    Some(i) => {
                        proof {
                            lemma_map_of_index(self@.paths, self@.files, i as int);
                        }
                        Some((i, open.offset))
                    },
                    None => None,
                }
            },
        }
    }

    fn move_handle(&mut self, slot: usize, offset: usize)
        requires
            old(self).wf(),
            slot < 3,
            old(self)@.handles[slot as int] is Some,
        ensures
            final(self).wf(),
            final(self)@ == old(self)@.with_handle(
                slot as int,
                Some(moved(old(self)@.handles[slot as int]->Some_0, offset)),
            ),
    {
        assert(self@.handles[slot as int] == handle_view(self.handles@[slot as int]));
        let updated = match &self.handles[slot] {
            Some(open) => OpenFile {
                path: copy_chars(open.path.as_slice()),
                offset,
                readable: open.readable,
                writable: open.writable,
            },
            None => {
                return;
            },
        };
        self.set_handle(slot, Some(updated));
    }

    /// True when a read through `handle` would start inside its file.
    pub(crate) fn can_read(&self, handle: u8) -> (ok: bool)
        requires
            self.wf(),
        ensures
            ok == self@.read_in_bounds(handle),
    {
        let slot = match handle_slot(handle) {
            Some(s) => s,
            None => return true,
        };
        assert(self@.handles[slot as int] == handle_view(self.handles@[slot as int]));
        let readable = match &self.handles[slot] {
            Some(open) => open.readable,
            None => return true,
        };
        if !readable {
            return true;
        }
        match self.open_file_at(slot) {
            Some((index, offset)) => {
                proof {
                    self.lemma_view_lengths();
                }
                offset <= self.entries[index].data.len()
            },
            None => true,
        }
    }

    /// Reads up to `length` bytes at the handle's position and advances it;
    /// an empty read on a handle without read access.
    pub fn read(&mut self, handle: u8, length: usize) -> (data: Option<Vec<u8>>)
        requires
            old(self).wf(),
            old(self)@.read_in_bounds(handle),
        ensures
            final(self).wf(),
            old(self)@.read_result(handle, length, match data { Some(d) => Some(d@), None => None::<Seq<u8>> }, final(self)@),

    {
        let slot = match handle_slot(handle) {
            Some(s) => s,
            None => return None,
        };
        assert(self@.handles[slot as int] == handle_view(self.handles@[slot as int]));
        let readable = match &self.handles[slot] {
            Some(open) => open.readable,
            None => return None,
        };
        if !readable {
            return Some(Vec::new());
        }
        let (index, offset) = match self.open_file_at(slot) {
            Some(found) => found,
            None => return None,
        };
        let size = self.entries[index].data.len();
        let end = if offset.checked_add(length).is_none() || offset + length > size {
            size
        } else {
            offset + length
        };
        let data = copy_bytes(&self.entries[index].data.as_slice()[offset..end]);
        self.move_handle(slot, end);
        Some(data)
    }

    /// Writes `data` at the handle's position (growing the file with zero
    /// bytes when needed), advances it and marks the file dirty; writes
    /// nothing on a handle without write access.
    pub fn write(&mut self, handle: u8, data: &[u8]) -> (written: Option<usize>)
        requires
            old(self).wf(),
        ensures
            final(self).wf(),
            old(self)@.written_result(handle, data@, written, final(self)@),

    {
        let slot = match handle_slot(handle) {
            Some(s) => s,
            None => return None,
        };
        assert(self@.handles[slot as int] == handle_view(self.handles@[slot as int]));
        let writable = match &self.handles[slot] {
            Some(open) => open.writable,
            None => return None,
        };
        if !writable {
            return Some(0);
        }
        let (index, offset) = match self.open_file_at(slot) {
            Some(found) => found,
            None => return None,
        };
        let end = match offset.checked_add(data.len()) {
            Some(e) => e,
            None => return None,
        };
        let ghost old_contents = self@.files[index as int].data;
        let ghost path = self@.paths[index as int];
        let mut contents = copy_bytes(self.entries[index].data.as_slice());
        if end > contents.len() {
            contents.resize(end, 0);
        }
        let ghost grown = contents@;
        assert(grown =~= (if end > old_contents.len() {
            old_contents + Seq::new((end - old_contents.len()) as nat, |_i: int| 0u8)
        } else {
            old_contents
        }));
        let mut j: usize = 0;
        while j < data.len()
            invariant
                j <= data@.len(),
                end == offset + data@.len(),
                contents@.len() == grown.len(),
                grown.len() >= end,
                contents@ == grown.take(offset as int) + data@.take(j as int) + grown.skip(offset + j),
            decreases data@.len() - j,
        {
            contents.set(offset + j, data[j]);
            assert(contents@ =~= grown.take(offset as int) + data@.take(j + 1) + grown.skip(offset + j + 1));
            j += 1;
        }
        assert(data@.take(data@.len() as int) =~= data@);
        let ghost paths = self@.paths;
        let ghost files = self@.files;
        proof {
            self.lemma_view_lengths();
        }
        let k = copy_chars(self.paths[index].as_slice());
        let ghost nf = FileView { data: contents@, dirty: true };
        self.put_file(k, FileEntry { data: contents, dirty: true });
        self.move_handle(slot, end);
        Some(data.len())
    }

    /// Moves the handle's position relative to the start (origin 0), the
    /// current position (1) or the end (2); refused outside the file.
    pub fn seek(&mut self, handle: u8, offset: i32, origin: u8) -> (position: Option<usize>)
        requires
            old(self).wf(),
        ensures
            final(self).wf(),
            old(self)@.sought(handle, offset, origin, position, final(self)@),

    {
        let slot = match handle_slot(handle) {
            Some(s) => s,
            None => return None,
        };
        let (index, current) = match self.open_file_at(slot) {
            Some(found) => found,
            None => return None,
        };
        let length = self.entries[index].data.len();
        let base: i128 = if origin == 0 {
            0
        } else if origin == 1 {
            current as i128
        } else if origin == 2 {
            length as i128
        } else {
            return None;
        };
        let target = base + offset as i128;
        if target < 0 || target > length as i128 {
            return None;
        }
        self.move_handle(slot, target as usize);
        Some(target as usize)
    }

    /// The handle's position.
    pub fn tell(&self, handle: u8) -> (position: Option<usize>)
        requires
            self.wf(),
        ensures
            match self@.handle(handle) {
                None => position is None,
                Some(h) => position == Some(h.offset),
            },
    {
        let slot = handle_slot(handle)?;
        assert(self@.handles[slot as int] == handle_view(self.handles@[slot as int]));
        match &self.handles[slot] {
            Some(open) => Some(open.offset),
            None => None,
        }
    }

    /// Whether the handle's position is the end of its file.
    pub fn eof(&self, handle: u8) -> (at_end: Option<bool>)
        requires
            self.wf(),
        ensures
            match self@.handle(handle) {
                None => at_end is None,
                Some(h) => if self@.file_map().contains_key(h.path) {
                    at_end == Some(h.offset == self@.file_map()[h.path].data.len())
                } else {
                    at_end is None
                },
            },
    {
        let slot = handle_slot(handle)?;
        let (index, offset) = self.open_file_at(slot)?;
        Some(offset == self.entries[index].data.len())
    }

    /// Moves the handle back to the start of its file.
    pub fn rewind(&mut self, handle: u8) -> (ok: bool)
        requires
            old(self).wf(),
        ensures
            final(self).wf(),
            old(self)@.rewound(handle, ok, final(self)@),

    {
        let slot = match handle_slot(handle) {
            Some(s) => s,
            None => return false,
        };
        assert(self@.handles[slot as int] == handle_view(self.handles@[slot as int]));
        if self.handles[slot].is_none() {
            return false;
        }
        self.move_handle(slot, 0);
        true
    }
}

impl VfsView {
    /// What `count` returns: the number of files and directories directly
    /// inside the directory `path` names, or -1 when it names none.
    pub open spec fn entry_count(self, path: Seq<char>) -> i32 {
        match self.resolve_path(path) {
            None => -1i32,
            Some(p) => if !self.dir_set().contains(p) {
                -1i32
            } else {
                (child_count(self.paths, p, false) + child_count(self.directories, p, true)) as i32
            },
        }
    }

    /// What `list` returns: the names directly inside the directory `path`
    /// names, sorted (none for a path that names nothing).
    pub open spec fn listing(self, path: Seq<char>, names: Seq<Seq<char>>) -> bool {
        match self.resolve_path(path) {
            None => names.len() == 0,
            Some(p) => {
                &&& sorted(names)
                &&& names.to_multiset() == (child_names(self.directories, p, true) + child_names(self.paths, p, false)).to_multiset()
            },
        }
    }

    /// What `open` returns and leaves behind (see `VirtualFileSystem::open`).
    pub open spec fn opened(self, path: Seq<char>, mode: Seq<char>, handle: Option<u8>, after: VfsView) -> bool {
        &&& (match normalize(self.cwd, path) {
                None => handle is None && after == self,
                Some(comps) => {
                    let p = join_abs(comps);
                    let exists = self.file_map().contains_key(p);
                    match first_free(self.handles) {
                        None => handle is None && after == self,
                        Some(slot) => if mode_starts(mode, 'r') && !exists {
                            handle is None && after == self
                        } else {
                            let creates = mode_creates(mode, exists);
                            &&& after.file_map() == (if creates {
                                self.file_map().insert(p, FileView { data: seq![], dirty: true })
                            } else {
                                self.file_map()
                            })
                            &&& after.dir_set() == (if creates {
                                self.dir_set().union(ancestors(comps))
                            } else {
                                self.dir_set()
                            })
                            &&& after.cwd == self.cwd
                            &&& if !(creates || exists) || (!mode_readable(mode) && !mode_writable(
                                mode,
                            )) {
                                handle is None && after.handles == self.handles
                            } else {
                                &&& handle == Some((0x80u8 | (slot as u8)) as u8)
                                &&& after.handles == self.handles.update(
                                    slot,
                                    Some(
                                        HandleView {
                                            path: p,
                                            offset: if mode_starts(mode, 'a') {
                                                after.file_map()[p].data.len() as usize
                                            } else {
                                                0
                                            },
                                            readable: mode_readable(mode),
                                            writable: mode_writable(mode),
                                        },
                                    ),
                                )
                            }
                        },
                    }
                },
            })
    }

    /// What `close` returns and leaves behind (see `VirtualFileSystem::close`).
    pub open spec fn closed_handle(self, handle: u8, closed: bool, after: VfsView) -> bool {
        &&& (match spec_handle_slot(handle) {
                None => !closed && after == self,
                Some(slot) => closed == self.handles[slot] is Some && after == self.with_handle(slot, None),
            })
    }

    /// What `read` returns and leaves behind (see `VirtualFileSystem::read`).
    pub open spec fn read_result(self, handle: u8, length: usize, data: Option<Seq<u8>>, after: VfsView) -> bool {
        &&& (match self.handle(handle) {
                None => data is None && after == self,
                Some(h) => if !h.readable {
                    data == Some(Seq::<u8>::empty()) && after == self
                } else if !self.file_map().contains_key(h.path) {
                    data is None && after == self
                } else {
                    let contents = self.file_map()[h.path].data;
                    let end: int = if h.offset + length > contents.len() {
                        contents.len() as int
                    } else {
                        h.offset + length
                    };
                    &&& data == Some(contents.subrange(h.offset as int, end as int))
                    &&& after == self.with_handle(
                        spec_handle_slot(handle)->Some_0,
                        Some(moved(h, end as usize)),
                    )
                },
            })
    }

    /// What `write` returns and leaves behind (see `VirtualFileSystem::write`).
    pub open spec fn written_result(self, handle: u8, data: Seq<u8>, written: Option<usize>, after: VfsView) -> bool {
        &&& (match self.handle(handle) {
                None => written is None && after == self,
                Some(h) => if !h.writable {
                    written == Some(0usize) && after == self
                } else if !self.file_map().contains_key(h.path) || h.offset + data.len()
                    > usize::MAX {
                    written is None && after == self
                } else {
                    let end = h.offset + data.len();
                    &&& written == Some(data.len() as usize)
                    &&& after.file_map() == self.file_map().insert(
                        h.path,
                        FileView {
                            data: spliced(self.file_map()[h.path].data, h.offset as int, data),
                            dirty: true,
                        },
                    )
                    &&& after.directories == self.directories
                    &&& after.cwd == self.cwd
                    &&& after.handles == self.handles.update(
                        spec_handle_slot(handle)->Some_0,
                        Some(moved(h, end as usize)),
                    )
                },
            })
    }

    /// What `seek` returns and leaves behind (see `VirtualFileSystem::seek`).
    pub open spec fn sought(self, handle: u8, offset: i32, origin: u8, position: Option<usize>, after: VfsView) -> bool {
        &&& (match self.handle(handle) {
                None => position is None && after == self,
                Some(h) => if !self.file_map().contains_key(h.path) || origin > 2 {
                    position is None && after == self
                } else {
                    let length = self.file_map()[h.path].data.len();
                    let base: int = if origin == 0 {
                        0
                    } else if origin == 1 {
                        h.offset as int
                    } else {
                        length as int
                    };
                    let target = base + offset;
                    if target < 0 || target > length {
                        position is None && after == self
                    } else {
                        &&& position == Some(target as usize)
                        &&& after == self.with_handle(
                            spec_handle_slot(handle)->Some_0,
                            Some(moved(h, target as usize)),
                        )
                    }
                },
            })
    }

    /// What `rewind` returns and leaves behind (see `VirtualFileSystem::rewind`).
    pub open spec fn rewound(self, handle: u8, ok: bool, after: VfsView) -> bool {
        &&& (match self.handle(handle) {
                None => !ok && after == self,
                Some(h) => ok && after == self.with_handle(
                    spec_handle_slot(handle)->Some_0,
                    Some(moved(h, 0)),
                ),
            })
    }

    /// What `create_directory` returns and leaves behind (see `VirtualFileSystem::create_directory`).
    pub open spec fn directory_created(self, path: Seq<char>, created: bool, after: VfsView) -> bool {
        &&& (normalize(self.cwd, path) is None ==> !created && after == self)
        &&& (normalize(self.cwd, path) matches Some(comps) ==> {
                &&& created == !self.dir_set().union(ancestors(comps)).contains(join_abs(comps))
                &&& after.dir_set() == self.dir_set().union(ancestors(comps)).insert(
                    join_abs(comps),
                )
                &&& after.paths == self.paths
                &&& after.files == self.files
                &&& after.cwd == self.cwd
                &&& after.handles == self.handles
            })
    }

    /// What `delete` returns and leaves behind (see `VirtualFileSystem::delete`).
    pub open spec fn deleted_result(self, path: Seq<char>, deleted: bool, after: VfsView) -> bool {
        &&& (match self.resolve_path(path) {
                None => !deleted && after == self,
                Some(p) => if self.file_map().contains_key(p) {
                    &&& deleted
                    &&& after.file_map() == self.file_map().remove(p)
                    &&& after.directories == self.directories
                    &&& after.cwd == self.cwd
                    &&& after.handles == self.handles
                } else if p == seq!['/'] || exists|i: int|
                    0 <= i < self.paths.len() && parent_path(#[trigger] self.paths[i]) == p {
                    !deleted && after == self
                } else {
                    &&& deleted == self.dir_set().contains(p)
                    &&& after.dir_set() == self.dir_set().remove(p)
                    &&& after.paths == self.paths
                    &&& after.files == self.files
                    &&& after.cwd == self.cwd
                    &&& after.handles == self.handles
                },
            })
    }

    /// What `import_file` returns and leaves behind: a path that resolves is
    /// stored, clean, with its parent directories; any other is refused.
    pub open spec fn imported(self, path: Seq<char>, data: Seq<u8>, ok: bool, after: VfsView) -> bool {
        &&& ok == normalize(self.cwd, path) is Some
        &&& !ok ==> after == self
        &&& normalize(self.cwd, path) matches Some(comps) ==> {
            &&& after.file_map() == self.file_map().insert(join_abs(comps), FileView { data, dirty: false })
            &&& after.dir_set() == self.dir_set().union(ancestors(comps))
            &&& after.cwd == self.cwd
            &&& after.handles == self.handles
        }
    }

    /// The contents of the file that `path` names, if there is one.
    pub open spec fn file_at(self, path: Seq<char>) -> Option<Seq<u8>> {
        match self.resolve_path(path) {
            Some(p) => if self.file_map().contains_key(p) {
                Some(self.file_map()[p].data)
            } else {
                None
            },
            None => None,
        }
    }

    /// What `change_directory` returns and leaves behind (see `VirtualFileSystem::change_directory`).
    pub open spec fn directory_changed(self, path: Seq<char>, ok: bool, after: VfsView) -> bool {
        &&& (ok == (normalize(self.cwd, path) matches Some(c) && self.dir_set().contains(
                join_abs(c),
            )))
        &&& (ok ==> normalize(self.cwd, path) == Some(after.cwd) && after == (
            VfsView { cwd: after.cwd, ..self }))
        &&& (!ok ==> after == self)
    }

}


/// A file that was imported is what `file` gives back for the same path,
/// and importing leaves every other file as it was.
pub proof fn law_import_then_file(s: VfsView, path: Seq<char>, data: Seq<u8>, after: VfsView, other: Seq<char>)
    requires
        s.imported(path, data, true, after),
        s.resolve_path(other) != s.resolve_path(path),
    ensures
        after.file_at(path) == Some(data),
        after.file_at(other) == s.file_at(other),
{
}


/// What a read gives back of a write: bytes written through a handle that
/// can read and write are read back after seeking to where they went.
pub proof fn law_write_then_read_back(
    s0: VfsView,
    handle: u8,
    data: Seq<u8>,
    written: Option<usize>,
    s1: VfsView,
    at: i32,
    position: Option<usize>,
    s2: VfsView,
    got: Option<Seq<u8>>,
    s3: VfsView,
)
    requires
        s0.wf(),
        s0.handle(handle) matches Some(h) && h.readable && h.writable && h.offset == at,
        written is Some,
        s0.written_result(handle, data, written, s1),
        s1.sought(handle, at, 0, position, s2),
        s2.read_result(handle, data.len() as usize, got, s3),
        data.len() <= usize::MAX,
    ensures
        got == Some(data),
{
    let h = s0.handle(handle)->Some_0;
    let slot = spec_handle_slot(handle)->Some_0;
    lemma_slot_in_range(handle);
    assert(slot == (handle & 3) as int);
    let old_data = s0.file_map()[h.path].data;
    let new_data = spliced(old_data, h.offset as int, data);
    assert(s1.file_map()[h.path].data == new_data);
    assert(s1.handle(handle) == Some(moved(h, (h.offset + data.len()) as usize)));
    assert(new_data.len() >= h.offset + data.len());
    assert(s2.handle(handle) == Some(moved(h, h.offset)));
    assert(s2.file_map() == s1.file_map());
    assert(new_data.subrange(h.offset as int, h.offset + data.len()) =~= data);
}


/// Seeking moves an open handle to the start of its file plus the offset
/// (origin 0), to its current position plus the offset (origin 1) or to
/// the end of the file plus the offset (origin 2). When that lands inside
/// the file, the new position is returned and is where the handle then
/// stands; otherwise nothing changes and there is no position.
pub proof fn law_seek_lands(
    s: VfsView,
    handle: u8,
    offset: i32,
    origin: u8,
    position: Option<usize>,
    after: VfsView,
)
    requires
        s.wf(),
        s.handle(handle) matches Some(h) && s.file_map().contains_key(h.path),
        origin <= 2,
        s.sought(handle, offset, origin, position, after),
    ensures
        ({
            let h = s.handle(handle)->Some_0;
            let n = s.file_map()[h.path].data.len();
            let target = offset + if origin == 0 {
                0
            } else if origin == 1 {
                h.offset as int
            } else {
                n as int
            };
            &&& 0 <= target <= n ==> position == Some(target as usize) && after.handle(handle) == Some(
                HandleView { offset: target as usize, ..h },
            ) && after.file_map() == s.file_map()
            &&& !(0 <= target <= n) ==> position is None && after == s
        }),
{
    lemma_slot_in_range(handle);
}

/// Opening a file gives a handle byte 0x80..=0x82 that stands on the file:
/// "r" modes need the file and leave it as it was, reading from the
/// start; "w" modes empty it and write from the start; "a" modes keep an
/// existing file and write at its end; a '+' anywhere grants both reading
/// and writing.
pub proof fn law_open_modes(s: VfsView, path: Seq<char>, mode: Seq<char>, handle: Option<u8>, after: VfsView)
    requires
        s.wf(),
        s.opened(path, mode, handle, after),
    ensures
        handle matches Some(b) ==> {
            &&& 0x80 <= b <= 0x82
            &&& after.handle(b) matches Some(h) && {
                &&& after.file_map().contains_key(h.path)
                &&& mode.contains('+') ==> h.readable && h.writable
                &&& mode.len() > 0 && mode[0] == 'r' ==> {
                    &&& s.file_map().contains_key(h.path)
                    &&& after.file_map()[h.path] == s.file_map()[h.path]
                    &&& h.readable
                    &&& h.offset == 0
                }
                &&& mode.len() > 0 && mode[0] == 'w' ==> {
                    &&& after.file_map()[h.path].data.len() == 0
                    &&& h.writable
                    &&& h.offset == 0
                }
                &&& mode.len() > 0 && mode[0] == 'a' ==> {
                    &&& s.file_map().contains_key(h.path) ==> after.file_map()[h.path] == s.file_map()[h.path]
                    &&& h.writable
                    &&& after.file_map()[h.path].data.len() <= usize::MAX ==> h.offset
                        == after.file_map()[h.path].data.len()
                }
            }
        },
{
    if let Some(b) = handle {
        let comps = normalize(s.cwd, path)->Some_0;
        let p = join_abs(comps);
        let slot = first_free(s.handles)->Some_0;
        assert(0 <= slot < 3);
        let sb = slot as u8;
        assert(0x80 <= (0x80u8 | sb) <= 0x82 && ((0x80u8 | sb) & 3) == sb) by (bit_vector)
            requires
                sb < 3,
        ;
        assert(after.handle(b) == after.handles[slot]);
        let exists = s.file_map().contains_key(p);
        let creates = mode_creates(mode, exists);
        assert(creates || exists);
        assert(after.file_map().contains_key(p));
        let h = after.handles[slot]->Some_0;
        assert(h.path == p);
    }
}

/// Reading through a readable handle gives the file's bytes from the
/// handle's position on, as many as asked for or as remain, and moves the
/// handle past them; the files themselves are untouched.
pub proof fn law_read_takes_bytes(
    s: VfsView,
    handle: u8,
    length: usize,
    data: Option<Seq<u8>>,
    after: VfsView,
)
    requires
        s.wf(),
        s.handle(handle) matches Some(h) && h.readable && s.file_map().contains_key(h.path),
        s.read_in_bounds(handle),
        s.read_result(handle, length, data, after),
    ensures
        ({
            let h = s.handle(handle)->Some_0;
            let contents = s.file_map()[h.path].data;
            let remaining = contents.len() - h.offset;
            &&& data matches Some(d) && {
                &&& d.len() == if length < remaining { length as int } else { remaining }
                &&& forall|i: int| 0 <= i < d.len() ==> d[i] == contents[h.offset + i]
                &&& after.handle(handle) == Some(HandleView { offset: (h.offset + d.len()) as usize, ..h })
            }
            &&& after.file_map() == s.file_map()
        }),
{
    lemma_slot_in_range(handle);
}

/// A handle byte 0x80..=0x82 names slot 0, 1 or 2.
proof fn lemma_slot_in_range(handle: u8)
    by (bit_vector)
    requires
        0x80 <= handle <= 0x82,
    ensures
        handle & 3 < 3,
{
}

proof fn lemma_child_names_count(entries: Seq<Seq<char>>, dir: Seq<char>, skip_self: bool)
    requires
        forall|i: int|
            0 <= i < entries.len() && (!skip_self || entries[i] != dir) && parent_path(#[trigger] entries[i])
                == dir ==> file_name(entries[i]) is Some,
    ensures
        child_names(entries, dir, skip_self).len() == child_count(entries, dir, skip_self),
    decreases entries.len(),
{
    if entries.len() > 0 {
        let rest = entries.drop_last();
        assert forall|i: int|
            0 <= i < rest.len() && (!skip_self || rest[i] != dir) && parent_path(#[trigger] rest[i]) == dir implies file_name(
            rest[i]) is Some by {
            assert(rest[i] == entries[i]);
        }
        lemma_child_names_count(rest, dir, skip_self);
        assert(entries.last() == entries[entries.len() - 1]);
    }
}

/// `count` agrees with `list`: a directory's count is the number of names
/// listed in it, unless a file is stored at "/" itself (which counts in
/// the root but has no name to list).
pub proof fn law_count_agrees_with_list(s: VfsView, path: Seq<char>, names: Seq<Seq<char>>)
    requires
        s.wf(),
        !s.file_map().contains_key(seq!['/']),
        s.listing(path, names),
        s.entry_count(path) >= 0,
    ensures
        s.entry_count(path) == names.len() as i32,
{
    assert forall|i: int| 0 <= i < s.paths.len() implies file_name(#[trigger] s.paths[i]) is Some by {
        assert(named(s.paths[i]));
        assert(s.paths.contains(s.paths[i]));
    }
    assert forall|i: int| 0 <= i < s.directories.len() && s.directories[i] != seq!['/'] implies file_name(
        #[trigger] s.directories[i],
    ) is Some by {
        assert(named(s.directories[i]));
    }
    let p = s.resolve_path(path)->Some_0;
    assert forall|i: int|
        0 <= i < s.directories.len() && (s.directories[i] != p) && parent_path(#[trigger] s.directories[i]) == p implies file_name(
        s.directories[i]) is Some by {
        if s.directories[i] == seq!['/'] {
            assert(parent_path(seq!['/']) == seq!['/']) by {
                assert(last_index_of(seq!['/'], '/') == 0) by {
                    assert(seq!['/'].drop_last() =~= Seq::<char>::empty());
                }
            }
        }
    }
    lemma_child_names_count(s.directories, p, true);
    lemma_child_names_count(s.paths, p, false);
    let all = child_names(s.directories, p, true) + child_names(s.paths, p, false);
    all.to_multiset_ensures();
    names.to_multiset_ensures();
}

/// Changed files come back in path order.
pub proof fn law_dirty_files_in_path_order(s: VfsView)
    requires
        s.wf(),
    ensures
        strictly_sorted(dirty_list(s.paths, s.files).map_values(|d: (Seq<char>, Seq<u8>)| d.0)),
{
    lemma_dirty_list_order(s.paths, s.files);
}

proof fn lemma_dirty_list_order(paths: Seq<Seq<char>>, files: Seq<FileView>)
    requires
        strictly_sorted(paths),
        paths.len() == files.len(),
    ensures
        strictly_sorted(dirty_list(paths, files).map_values(|d: (Seq<char>, Seq<u8>)| d.0)),
        forall|k: int| 0 <= k < dirty_list(paths, files).len() ==> exists|i: int|
            0 <= i < paths.len() && #[trigger] dirty_list(paths, files)[k].0 == paths[i],
    decreases paths.len(),
{
    if paths.len() > 0 {
        let p0 = paths.drop_last();
        let f0 = files.drop_last();
        assert(strictly_sorted(p0)) by {
            assert forall|i: int, j: int| 0 <= i < j < p0.len() implies lex_lt(#[trigger] p0[i], #[trigger] p0[j]) by {
                assert(p0[i] == paths[i] && p0[j] == paths[j]);
            }
        }
        lemma_dirty_list_order(p0, f0);
        let rest = dirty_list(p0, f0);
        let d = dirty_list(paths, files);
        let last = paths.last();
        assert forall|k: int| 0 <= k < rest.len() implies lex_lt(#[trigger] rest[k].0, last) by {
            let i = choose|i: int| 0 <= i < p0.len() && rest[k].0 == p0[i];
            assert(p0[i] == paths[i]);
            assert(lex_lt(paths[i], paths[paths.len() - 1]));
        }
        let dm = d.map_values(|x: (Seq<char>, Seq<u8>)| x.0);
        let rm = rest.map_values(|x: (Seq<char>, Seq<u8>)| x.0);
        assert forall|i: int, j: int| 0 <= i < j < dm.len() implies lex_lt(#[trigger] dm[i], #[trigger] dm[j]) by {
            if j < rest.len() {
                assert(dm[i] == rm[i] && dm[j] == rm[j]);
            } else {
                assert(dm[j] == last);
                assert(dm[i] == rest[i].0);
            }
        }
        assert forall|k: int| 0 <= k < d.len() implies exists|i: int|
            0 <= i < paths.len() && #[trigger] d[k].0 == paths[i] by {
            if k < rest.len() {
                let i = choose|i: int| 0 <= i < p0.len() && rest[k].0 == p0[i];
                assert(p0[i] == paths[i]);
                assert(d[k] == rest[k]);
            } else {
                assert(d[k].0 == paths[paths.len() - 1]);
            }
        }
    }
}

} // verus!
