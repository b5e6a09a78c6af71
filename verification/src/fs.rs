//! The in-memory file system: files kept in path order, and inodes that
//! name paths in the order they were created.
use vstd::prelude::*;
use vstd::string::StringSliceAdditionalSpecFns;
use crate::path::{lex_lt, path_order, path_eq, starts_with, lemma_lex_irreflexive, lemma_lex_asymmetric, lemma_lex_transitive, lemma_lex_total};

verus! {

/// What a file holds: bytes fixed when it was made, or bytes that writes
/// can change and extend.
pub enum FileContents {
    Static(Vec<u8>),
    Dynamic(Vec<u8>),
}

pub struct File {
    pub data: FileContents,
}

/// An open file description: the inode, the position, the access mode and,
/// for a pipe end, the pipe.
#[derive(Clone, Copy)]
pub struct OpenFile {
    pub inode: usize,
    pub offset: usize,
    pub readable: bool,
    pub writable: bool,
    pub pipe_id: Option<usize>,
}

/// The bytes of `v`, copied.
pub fn copy_bytes(v: &[u8]) -> (r: Vec<u8>)
    ensures
        r@ == v@,
{
    let mut r: Vec<u8> = Vec::with_capacity(v.len());
    let mut i: usize = 0;
    while i < v.len()
        invariant
            i <= v@.len(),
            r@ == v@.take(i as int),
        decreases v@.len() - i,
    {
        r.push(v[i]);
        i = i + 1;
        assert(r@ == v@.take(i as int));
    }
    assert(v@.take(v@.len() as int) == v@);
    r
}

impl File {
    pub open spec fn bytes(&self) -> Seq<u8> {
        match self.data {
            FileContents::Static(v) => v@,
            FileContents::Dynamic(v) => v@,
        }
    }

    pub open spec fn is_static(&self) -> bool {
        self.data is Static
    }

    pub fn len(&self) -> (n: usize)
        ensures
            n == self.bytes().len(),
    {
        match &self.data {
            FileContents::Static(s) => s.len(),
            FileContents::Dynamic(v) => v.len(),
        }
    }

    pub fn as_slice(&self) -> (s: &[u8])
        ensures
            s@ == self.bytes(),
    {
        match &self.data {
            FileContents::Static(s) => s.as_slice(),
            FileContents::Dynamic(v) => v.as_slice(),
        }
    }

    /// The bytes of a file that writes can change, to change them.
    pub fn as_mut_vec(&mut self) -> (r: Option<&mut Vec<u8>>)
        ensures
            r is Some <==> !old(self).is_static(),
            r is Some ==> {
                &&& *r->0 == match old(self).data { FileContents::Dynamic(v) => v, FileContents::Static(v) => v }
                &&& final(self).data == FileContents::Dynamic(*final(r->0))
            },
            r is None ==> *final(self) == *old(self),
    {
        match &mut self.data {
            FileContents::Static(_) => None,
            FileContents::Dynamic(v) => Some(v),
        }
    }
}

/// One file of the file system and its path.
pub struct FsEntry {
    pub path: Vec<u8>,
    pub file: File,
}

/// The file system: its files in strictly increasing path order, and the
/// path of each inode, inode `n` at position `n - 1`.
pub struct RamFs {
    entries: Vec<FsEntry>,
    inode_paths: Vec<Vec<u8>>,
}

/// Index of the first `p` in `s` at or after `start`.
pub open spec fn first_index(s: Seq<Seq<u8>>, p: Seq<u8>, start: int) -> Option<int>
    decreases s.len() - start,
{
    if start < 0 || start >= s.len() {
        None
    } else if s[start] == p {
        Some(start)
    } else {
        first_index(s, p, start + 1)
    }
}

proof fn lemma_first_index(s: Seq<Seq<u8>>, p: Seq<u8>, start: int)
    requires
        0 <= start,
    ensures
        first_index(s, p, start) is Some ==> {
            let i = first_index(s, p, start)->0;
            &&& start <= i < s.len()
            &&& s[i] == p
            &&& forall|j: int| start <= j < i ==> s[j] != p
        },
        first_index(s, p, start) is None ==> forall|j: int| start <= j < s.len() ==> s[j] != p,
    decreases s.len() - start,
{
    if start < s.len() && s[start] != p {
        lemma_first_index(s, p, start + 1);
    }
}

proof fn lemma_first_index_push(s: Seq<Seq<u8>>, p: Seq<u8>, q: Seq<u8>, start: int)
    requires
        0 <= start <= s.len(),
    ensures
        first_index(s.push(q), p, start)
            == if first_index(s, p, start) is Some { first_index(s, p, start) } else if q == p { Some(s.len() as int) } else { None },
    decreases s.len() - start,
{
    if start < s.len() {
        assert(s.push(q)[start] == s[start]);
        if s[start] != p {
            lemma_first_index_push(s, p, q, start + 1);
        }
    } else {
        assert(s.push(q)[start] == q);
        if q != p {
            assert(first_index(s.push(q), p, start + 1) is None);
        }
    }
}

impl RamFs {
    pub closed spec fn path_at(self, i: int) -> Seq<u8> {
        self.entries@[i].path@
    }

    pub closed spec fn file_at(self, i: int) -> File {
        self.entries@[i].file
    }

    pub closed spec fn num_files(self) -> nat {
        self.entries@.len()
    }

    /// The path of every inode, in creation order.
    pub closed spec fn inodes(self) -> Seq<Seq<u8>> {
        self.inode_paths@.map_values(|v: Vec<u8>| v@)
    }

    /// The entries stand in strictly increasing order of their paths.
    pub closed spec fn sorted(self) -> bool {
        forall|i: int, j: int| 0 <= i < j < self.entries@.len()
            ==> lex_lt(#[trigger] self.entries@[i].path@, #[trigger] self.entries@[j].path@)
    }

    pub closed spec fn wf(self) -> bool {
        &&& self.sorted()
        &&& forall|k: int| 0 <= k < self.inodes().len() ==> self.has(#[trigger] self.inodes()[k])
    }

    /// Every inode names a file.
    pub proof fn lemma_inodes_have_files(self, k: int)
        requires
            self.wf(),
            0 <= k < self.inodes().len(),
        ensures
            self.has(self.inodes()[k]),
    {
    }

    /// Whether a file has path `p`.
    pub open spec fn has(self, p: Seq<u8>) -> bool {
        exists|i: int| 0 <= i < self.num_files() && self.path_at(i) == p
    }

    /// Position of the file with path `p`.
    pub open spec fn index_of(self, p: Seq<u8>) -> int {
        choose|i: int| 0 <= i < self.num_files() && self.path_at(i) == p
    }

    /// The file with path `p`.
    pub open spec fn file(self, p: Seq<u8>) -> File {
        self.file_at(self.index_of(p))
    }

    /// The smallest inode whose path is `p`.
    pub open spec fn lookup_spec(self, p: Seq<u8>) -> Option<usize> {
        match first_index(self.inodes(), p, 0) {
            Some(i) => Some((i + 1) as usize),
            None => None,
        }
    }

    /// The path that inode `inode` names.
    pub open spec fn inode_path(self, inode: int) -> Option<Seq<u8>> {
        if 1 <= inode <= self.inodes().len() {
            Some(self.inodes()[inode - 1])
        } else {
            None
        }
    }

    /// The file that inode `inode` names, if it names one.
    pub open spec fn inode_file(self, inode: int) -> Option<File> {
        match self.inode_path(inode) {
            Some(p) => if self.has(p) { Some(self.file(p)) } else { None },
            None => None,
        }
    }

    proof fn lemma_unique(self, i: int, j: int)
        requires
            self.sorted(),
            0 <= i < self.num_files(),
            0 <= j < self.num_files(),
            self.path_at(i) == self.path_at(j),
        ensures
            i == j,
    {
        if i < j {
            lemma_lex_irreflexive(self.path_at(i));
        } else if j < i {
            lemma_lex_irreflexive(self.path_at(i));
        }
    }

    proof fn lemma_index_of(self, i: int)
        requires
            self.sorted(),
            0 <= i < self.num_files(),
        ensures
            self.has(self.path_at(i)),
            self.index_of(self.path_at(i)) == i,
    {
        let k = self.index_of(self.path_at(i));
        self.lemma_unique(i, k);
    }

    /// An empty file system.
    pub fn empty() -> (fs: RamFs)
        ensures
            fs.wf(),
            fs.num_files() == 0,
            fs.inodes() == Seq::<Seq<u8>>::empty(),
            forall|p: Seq<u8>| !fs.has(p),
    {
        let fs = RamFs { entries: Vec::new(), inode_paths: Vec::new() };
        assert(fs.inodes() =~= Seq::<Seq<u8>>::empty());
        fs
    }

    /// Position of the file with path `p`, if there is one.
    fn find(&self, p: &[u8]) -> (r: Option<usize>)
        requires
            self.wf(),
        ensures
            r is Some <==> self.has(p@),
            r is Some ==> r->0 == self.index_of(p@) && r->0 < self.num_files(),
    {
        let mut i: usize = 0;
        while i < self.entries.len()
            invariant
                i <= self.entries@.len(),
                self.wf(),
                forall|j: int| 0 <= j < i ==> self.path_at(j) != p@,
            decreases self.entries@.len() - i,
        {
            if path_eq(self.entries[i].path.as_slice(), p) {
                proof {
                    self.lemma_index_of(i as int);
                }
                return Some(i);
            }
            i = i + 1;
        }
        None
    }

    /// The number of files.
    pub fn len(&self) -> (n: usize)
        ensures
            n == self.num_files(),
    {
        self.entries.len()
    }

    /// Where `path` belongs in the path order, and whether a file there has
    /// that path already.
    fn position(&self, path: &[u8]) -> (r: (usize, bool))
        requires
            self.sorted(),
        ensures
            r.0 <= self.num_files(),
            forall|j: int| 0 <= j < r.0 ==> lex_lt(#[trigger] self.path_at(j), path@),
            r.1 ==> r.0 < self.num_files() && self.path_at(r.0 as int) == path@,
            !r.1 && r.0 < self.num_files() ==> lex_lt(path@, self.path_at(r.0 as int)),
    {
        let mut i: usize = 0;
        while i < self.entries.len()
            invariant
                i <= self.entries@.len(),
                self.sorted(),
                forall|j: int| 0 <= j < i ==> lex_lt(#[trigger] self.path_at(j), path@),
            decreases self.entries@.len() - i,
        {
            let c = path_order(self.entries[i].path.as_slice(), path);
            if c == 0 {
                return (i, true);
            }
            if c > 0 {
                return (i, false);
            }
            i = i + 1;
        }
        (i, false)
    }

    /// Puts `file` at `path`, replacing a file that has that path, and gives
    /// the path a new inode.
    fn insert_file(&mut self, path: &[u8], file: File)
        requires
            old(self).wf(),
        ensures
            final(self).wf(),
            final(self).inodes() == old(self).inodes().push(path@),
            final(self).has(path@),
            final(self).file(path@) == file,
            forall|q: Seq<u8>| q != path@ ==> (#[trigger] final(self).has(q) == old(self).has(q)),
            forall|q: Seq<u8>| q != path@ && old(self).has(q) ==> #[trigger] final(self).file(q) == old(self).file(q),
    {
        self.inode_paths.push(copy_bytes(path));
        proof {
            assert(self.inodes() =~= old(self).inodes().push(path@));
        }
        let (i, found) = self.position(path);
        let ghost old_fs = *self;
        let entry = FsEntry { path: copy_bytes(path), file };
        if found {
            self.entries.set(i, entry);
        } else {
            self.entries.insert(i, entry);
            assert forall|a: int, b: int| 0 <= a < b < self.entries@.len()
                implies lex_lt(#[trigger] self.entries@[a].path@, #[trigger] self.entries@[b].path@) by {
                if b < i {
                    assert(self.entries@[a] == old_fs.entries@[a]);
                    assert(self.entries@[b] == old_fs.entries@[b]);
                } else if a < i && b == i {
                    assert(self.entries@[a] == old_fs.entries@[a]);
                    assert(lex_lt(old_fs.path_at(a), path@));
                } else if a < i && b > i {
                    assert(self.entries@[a] == old_fs.entries@[a]);
                    assert(self.entries@[b] == old_fs.entries@[b - 1]);
                    assert(lex_lt(old_fs.entries@[a].path@, old_fs.entries@[b - 1].path@));
                } else if a == i && b > i {
                    assert(self.entries@[b] == old_fs.entries@[b - 1]);
                    if b - 1 > i {
                        lemma_lex_transitive(path@, old_fs.path_at(i as int), old_fs.path_at(b - 1));
                    }
                } else {
                    assert(self.entries@[a] == old_fs.entries@[a - 1]);
                    assert(self.entries@[b] == old_fs.entries@[b - 1]);
                    assert(lex_lt(old_fs.entries@[a - 1].path@, old_fs.entries@[b - 1].path@));
                }
            }
        }
        proof {
            assert(old_fs.entries@ == old(self).entries@);
            assert forall|q: Seq<u8>| q != path@ implies (#[trigger] self.has(q) == old(self).has(q)) by {
                if old(self).has(q) {
                    let k = old(self).index_of(q);
                    if found {
                        assert(self.path_at(k) == q);
                    } else if k < i {
                        assert(self.path_at(k) == q);
                    } else {
                        assert(self.path_at(k + 1) == q);
                    }
                }
                if self.has(q) {
                    let k = self.index_of(q);
                    if found {
                        assert(old(self).path_at(k) == q);
                    } else if k < i {
                        assert(old(self).path_at(k) == q);
                    } else if k > i {
                        assert(old(self).path_at(k - 1) == q);
                    }
                }
            }
            assert forall|q: Seq<u8>| q != path@ && old(self).has(q) implies #[trigger] self.file(q) == old(self).file(q) by {
                let k = old(self).index_of(q);
                old(self).lemma_index_of(k);
                if found || k < i {
                    self.lemma_index_of(k);
                } else {
                    self.lemma_index_of(k + 1);
                }
            }
            assert(self.path_at(i as int) == path@);
            self.lemma_index_of(i as int);
        }

    }

    /// Index of the first inode whose path is `p`.
    pub fn lookup_index(&self, p: &[u8]) -> (r: Option<usize>)
        ensures
            r == self.lookup_spec(p@),
    {
        let mut i: usize = 0;
        while i < self.inode_paths.len()
            invariant
                i <= self.inode_paths@.len(),
                first_index(self.inodes(), p@, 0) == first_index(self.inodes(), p@, i as int),
            decreases self.inode_paths@.len() - i,
        {
            if path_eq(self.inode_paths[i].as_slice(), p) {
                return Some(i + 1);
            }
            i = i + 1;
        }
        None
    }
}

/// The bytes of a file after `buf` is written at `offset`: the file grows
/// with zeros up to the written range if it is shorter.
pub open spec fn written_bytes(old: Seq<u8>, buf: Seq<u8>, offset: int) -> Seq<u8> {
    let n = if old.len() >= offset + buf.len() { old.len() as int } else { offset + buf.len() };
    Seq::new(n as nat, |i: int| if offset <= i < offset + buf.len() { buf[i - offset] } else if i < old.len() { old[i] } else { 0u8 })
}

impl RamFs {
    /// The path of inode `inode`, if it names one.
    fn path_of_inode(&self, inode: usize) -> (r: Option<&Vec<u8>>)
        ensures
            r is Some <==> self.inode_path(inode as int) is Some,
            r is Some ==> r->0@ == self.inode_path(inode as int)->0,
    {
        if inode >= 1 && inode <= self.inode_paths.len() {
            Some(&self.inode_paths[inode - 1])
        } else {
            None
        }
    }

    /// The file with path `p`, if there is one.
    fn get(&self, p: &[u8]) -> (r: Option<&File>)
        requires
            self.wf(),
        ensures
            r is Some <==> self.has(p@),
            r is Some ==> *r->0 == self.file(p@),
    {
        match self.find(p) {
            Some(i) => Some(&self.entries[i].file),
            None => None,
        }
    }

    /// The file that inode `inode` names, if it names one.
    pub fn inode_get(&self, inode: usize) -> (r: Option<&File>)
        requires
            self.wf(),
        ensures
            r is Some <==> self.inode_file(inode as int) is Some,
            r is Some ==> *r->0 == self.inode_file(inode as int)->0,
    {
        match self.path_of_inode(inode) {
            Some(p) => self.get(p.as_slice()),
            None => None,
        }
    }
}

/// Creates (or replaces) a read-only file at `path` holding `data`.
pub fn create_file_static(fs: &mut RamFs, path: &[u8], data: &[u8])
    requires
        old(fs).wf(),
    ensures
        final(fs).wf(),
        final(fs).inodes() == old(fs).inodes().push(path@),
        final(fs).has(path@),
        final(fs).file(path@).bytes() == data@,
        final(fs).file(path@).is_static(),
        forall|q: Seq<u8>| q != path@ ==> (#[trigger] final(fs).has(q) == old(fs).has(q)),
        forall|q: Seq<u8>| q != path@ && old(fs).has(q) ==> #[trigger] final(fs).file(q) == old(fs).file(q),
{
    fs.insert_file(path, File { data: FileContents::Static(copy_bytes(data)) });
}

/// Creates (or replaces) a writable file at `path` holding `data`.
pub fn create_file_dynamic(fs: &mut RamFs, path: &[u8], data: &[u8])
    requires
        old(fs).wf(),
    ensures
        final(fs).wf(),
        final(fs).inodes() == old(fs).inodes().push(path@),
        final(fs).has(path@),
        final(fs).file(path@).bytes() == data@,
        !final(fs).file(path@).is_static(),
        forall|q: Seq<u8>| q != path@ ==> (#[trigger] final(fs).has(q) == old(fs).has(q)),
        forall|q: Seq<u8>| q != path@ && old(fs).has(q) ==> #[trigger] final(fs).file(q) == old(fs).file(q),
{
    fs.insert_file(path, File { data: FileContents::Dynamic(copy_bytes(data)) });
}

/// `lookup` gives the least inode whose path is `p`, and `None` exactly
/// when no inode has that path, wherever the inodes can be counted in a
/// `usize`.
pub proof fn lemma_lookup_least(fs: RamFs, p: Seq<u8>)
    requires
        fs.inodes().len() < usize::MAX,
    ensures
        match fs.lookup_spec(p) {
            Some(n) => {
                &&& 1 <= n <= fs.inodes().len()
                &&& fs.inodes()[n - 1] == p
                &&& forall|j: int| 0 <= j < n - 1 ==> fs.inodes()[j] != p
            },
            None => forall|j: int| 0 <= j < fs.inodes().len() ==> fs.inodes()[j] != p,
        },
{
    lemma_first_index(fs.inodes(), p, 0);
}

/// A path that names an inode names a file.
pub proof fn lemma_lookup_has(fs: RamFs, p: Seq<u8>)
    requires
        fs.wf(),
        fs.lookup_spec(p) is Some,
    ensures
        fs.has(p),
{
    lemma_first_index(fs.inodes(), p, 0);
    let i = first_index(fs.inodes(), p, 0)->0;
    fs.lemma_inodes_have_files(i);
}

/// Creates a directory: an empty read-only file.
pub fn mkdir(fs: &mut RamFs, path: &[u8])
    requires
        old(fs).wf(),
    ensures
        final(fs).wf(),
        final(fs).inodes() == old(fs).inodes().push(path@),
        final(fs).has(path@),
        final(fs).file(path@).bytes().len() == 0,
        final(fs).file(path@).is_static(),
        forall|q: Seq<u8>| q != path@ ==> (#[trigger] final(fs).has(q) == old(fs).has(q)),
        forall|q: Seq<u8>| q != path@ && old(fs).has(q) ==> #[trigger] final(fs).file(q) == old(fs).file(q),
{
    let empty: Vec<u8> = Vec::new();
    create_file_static(fs, path, empty.as_slice());
}

/// The smallest inode that names `path`.
pub fn lookup(fs: &RamFs, path: &[u8]) -> (r: Option<usize>)
    ensures
        r == fs.lookup_spec(path@),
{
    fs.lookup_index(path)
}

/// Reads from inode `inode` at `offset` into `buf`: as many bytes as are
/// left in the file and fit in `buf`; 0 when the inode names no file.
pub fn read_inode(fs: &RamFs, inode: usize, buf: &mut [u8], offset: usize) -> (n: usize)
    requires
        fs.wf(),
        fs.inode_file(inode as int) is Some ==> offset <= fs.inode_file(inode as int)->0.bytes().len(),
    ensures
        final(buf)@.len() == old(buf)@.len(),
        fs.inode_file(inode as int) is None ==> n == 0 && final(buf)@ == old(buf)@,
        fs.inode_file(inode as int) is Some ==> {
            let data = fs.inode_file(inode as int)->0.bytes();
            &&& n == vstd::math::min(data.len() - offset, old(buf)@.len() as int)
            &&& final(buf)@ == data.subrange(offset as int, offset + n) + old(buf)@.skip(n as int)
        },
{
    match fs.inode_get(inode) {
        Some(file) => {
            let data = file.as_slice();
            let len = data.len();
            let left = len - offset;
            let to_read = if left < buf.len() { left } else { buf.len() };
            let mut i: usize = 0;
            while i < to_read
                invariant
                    i <= to_read,
                    to_read <= buf@.len(),
                    len == data@.len(),
                    offset + to_read <= len,
                    buf@.len() == old(buf)@.len(),
                    forall|j: int| 0 <= j < i ==> buf@[j] == data@[offset + j],
                    forall|j: int| to_read <= j < buf@.len() ==> buf@[j] == old(buf)@[j],
                decreases to_read - i,
            {
                buf[i] = data[offset + i];
                i = i + 1;
            }
            assert(buf@ =~= data@.subrange(offset as int, offset + to_read) + old(buf)@.skip(to_read as int));
            to_read
        },
        None => 0,
    }
}

/// The size of the file that inode `inode` names; 0 when it names none.
pub fn file_size(fs: &RamFs, inode: usize) -> (n: usize)
    requires
        fs.wf(),
    ensures
        n == match fs.inode_file(inode as int) { Some(f) => f.bytes().len(), None => 0 },
{
    match fs.inode_get(inode) {
        Some(f) => f.len(),
        None => 0,
    }
}

/// Whether `path` names a directory (an empty file).
pub fn is_dir(fs: &RamFs, path: &[u8]) -> (r: bool)
    requires
        fs.wf(),
    ensures
        r == (fs.has(path@) && fs.file(path@).bytes().len() == 0),
{
    match fs.get(path) {
        Some(f) => f.len() == 0,
        None => false,
    }
}

/// The bytes of the read-only file at `path`.
pub fn get_file_data<'a>(fs: &'a RamFs, path: &[u8]) -> (r: Option<&'a [u8]>)
    requires
        fs.wf(),
    ensures
        r is Some <==> fs.has(path@) && fs.file(path@).is_static(),
        r is Some ==> r->0@ == fs.file(path@).bytes(),
{
    match fs.get(path) {
        Some(f) => match &f.data {
            FileContents::Static(s) => Some(s.as_slice()),
            FileContents::Dynamic(_) => None,
        },
        None => None,
    }
}

impl RamFs {
    /// Writes `buf` at `offset` into the writable file at position `i`.
    fn write_at(&mut self, i: usize, buf: &[u8], offset: usize)
        requires
            old(self).wf(),
            i < old(self).num_files(),
            !old(self).file_at(i as int).is_static(),
            offset + buf@.len() <= usize::MAX,
        ensures
            final(self).wf(),
            final(self).inodes() == old(self).inodes(),
            forall|q: Seq<u8>| #[trigger] final(self).has(q) == old(self).has(q),
            forall|q: Seq<u8>| q != old(self).path_at(i as int) && old(self).has(q) ==> #[trigger] final(self).file(q) == old(self).file(q),
            final(self).file(old(self).path_at(i as int)).bytes() == written_bytes(old(self).file_at(i as int).bytes(), buf@, offset as int),
            !final(self).file(old(self).path_at(i as int)).is_static(),
    {
        let ghost target = written_bytes(self.file_at(i as int).bytes(), buf@, offset as int);
        let old_data = self.entries[i].file.as_slice();
        let mut v = copy_bytes(old_data);
        let end = offset + buf.len();
        while v.len() < end
            invariant
                v@.len() <= end || v@.len() == old_data@.len(),
                old_data@.len() <= v@.len(),
                forall|j: int| 0 <= j < old_data@.len() ==> v@[j] == old_data@[j],
                forall|j: int| old_data@.len() <= j < v@.len() ==> v@[j] == 0,
            decreases end - v@.len(),
        {
            v.push(0);
        }
        assert(v@.len() == target.len());
        let mut k: usize = 0;
        while k < buf.len()
            invariant
                k <= buf@.len(),
                end == offset + buf@.len(),
                end <= v@.len(),
                target == written_bytes(old_data@, buf@, offset as int),
                v@.len() == target.len(),
                forall|j: int| 0 <= j < v@.len() && !(offset <= j < offset + k) ==> v@[j]
                    == if j < old_data@.len() { old_data@[j] } else { 0u8 },
                forall|j: int| offset <= j < offset + k ==> v@[j] == buf@[j - offset],
            decreases buf@.len() - k,
        {
            v.set(offset + k, buf[k]);
            k = k + 1;
        }
        assert(v@ =~= target);
        let ghost old_fs = *self;
        let path = copy_bytes(self.entries[i].path.as_slice());
        self.entries.set(i, FsEntry { path, file: File { data: FileContents::Dynamic(v) } });
        proof {
            assert forall|a: int, b: int| 0 <= a < b < self.entries@.len()
                implies lex_lt(#[trigger] self.entries@[a].path@, #[trigger] self.entries@[b].path@) by {
                assert(lex_lt(old_fs.entries@[a].path@, old_fs.entries@[b].path@));
            }
            assert(forall|j: int| 0 <= j < self.num_files() ==> #[trigger] self.path_at(j) == old_fs.path_at(j));
            assert forall|q: Seq<u8>| #[trigger] self.has(q) == old_fs.has(q) by {
                if old_fs.has(q) {
                    assert(self.path_at(old_fs.index_of(q)) == q);
                }
                if self.has(q) {
                    assert(old_fs.path_at(self.index_of(q)) == q);
                }
            }
            assert forall|q: Seq<u8>| q != old_fs.path_at(i as int) && old_fs.has(q) implies #[trigger] self.file(q) == old_fs.file(q) by {
                let k = old_fs.index_of(q);
                old_fs.lemma_index_of(k);
                self.lemma_index_of(k);
            }
            self.lemma_index_of(i as int);
            assert(self.inodes() == old_fs.inodes());
            assert forall|k: int| 0 <= k < self.inodes().len() implies self.has(#[trigger] self.inodes()[k]) by {
                assert(old_fs.has(old_fs.inodes()[k]));
            }
        }
    }
}

/// Writes `buf` at `offset` into the file that inode `inode` names, if it
/// is writable; returns the bytes written (0 for a read-only file or an
/// inode that names none).
pub fn write_inode(fs: &mut RamFs, inode: usize, buf: &[u8], offset: usize) -> (n: usize)
    requires
        old(fs).wf(),
        offset + buf@.len() <= usize::MAX,
    ensures
        final(fs).wf(),
        final(fs).inodes() == old(fs).inodes(),
        forall|q: Seq<u8>| #[trigger] final(fs).has(q) == old(fs).has(q),
        match old(fs).inode_file(inode as int) {
            Some(f) => if f.is_static() {
                n == 0 && *final(fs) == *old(fs)
            } else {
                let p = old(fs).inode_path(inode as int)->0;
                &&& n == buf@.len()
                &&& final(fs).file(p).bytes() == written_bytes(f.bytes(), buf@, offset as int)
                &&& !final(fs).file(p).is_static()
                &&& forall|q: Seq<u8>| q != p && old(fs).has(q) ==> #[trigger] final(fs).file(q) == old(fs).file(q)
            },
            None => n == 0 && *final(fs) == *old(fs),
        },
{
    let i = match fs.path_of_inode(inode) {
        Some(p) => match fs.find(p.as_slice()) {
            Some(i) => i,
            None => return 0,
        },
        None => return 0,
    };
    proof {
        fs.lemma_index_of(i as int);
    }
    if fs.entries[i].file.is_static_file() {
        return 0;
    }
    fs.write_at(i, buf, offset);
    buf.len()
}

impl File {
    pub fn is_static_file(&self) -> (r: bool)
        ensures
            r == self.is_static(),
    {
        match &self.data {
            FileContents::Static(_) => true,
            FileContents::Dynamic(_) => false,
        }
    }
}

/// Index of the first `/` in `r` at or after `i`, or `r.len()`.
pub open spec fn slash_at(r: Seq<u8>, i: int) -> int
    decreases r.len() - i,
{
    if i < 0 || i >= r.len() {
        r.len() as int
    } else if r[i] == 47 {
        i
    } else {
        slash_at(r, i + 1)
    }
}

proof fn lemma_slash_at(r: Seq<u8>, i: int)
    requires
        0 <= i <= r.len(),
    ensures
        i <= slash_at(r, i) <= r.len(),
        forall|j: int| i <= j < slash_at(r, i) ==> r[j] != 47,
        slash_at(r, i) < r.len() ==> r[slash_at(r, i)] == 47,
    decreases r.len() - i,
{
    if i < r.len() && r[i] != 47 {
        lemma_slash_at(r, i + 1);
    }
}

/// The first component of a relative path: its bytes up to the first `/`.
pub open spec fn first_component(r: Seq<u8>) -> Seq<u8> {
    r.take(slash_at(r, 0))
}

/// The prefix that the paths under directory `dir` begin with.
pub open spec fn dir_prefix(dir: Seq<u8>) -> Seq<u8> {
    if dir == seq![47u8] {
        dir
    } else {
        dir.push(47u8)
    }
}

/// One directory entry: name, inode and type (4 for a directory, 8 for a
/// file).
pub type DirEntry = (Seq<u8>, u64, u8);

pub open spec fn names_contain(s: Seq<DirEntry>, name: Seq<u8>) -> bool {
    exists|i: int| 0 <= i < s.len() && s[i].0 == name
}

/// The inode listed for a path: the smallest that names it, or 0.
pub open spec fn entry_inode(fs: RamFs, p: Seq<u8>) -> u64 {
    match fs.lookup_spec(p) {
        Some(i) => i as u64,
        None => 0,
    }
}

impl RamFs {
    /// The entries of the directory whose paths begin with `prefix`, as
    /// listing the first `k` files in path order finds them: `.` and `..`
    /// first, then the first component under the prefix of each file, each
    /// name once, typed by the file that first gave it.
    pub closed spec fn listing(self, prefix: Seq<u8>, ino: u64, k: int) -> Seq<DirEntry>
        decreases k,
    {
        if k <= 0 {
            seq![(seq![46u8], ino, 4u8), (seq![46u8, 46u8], ino, 4u8)]
        } else {
            let prev = self.listing(prefix, ino, k - 1);
            let p = self.path_at(k - 1);
            if prefix.len() < p.len() && p.take(prefix.len() as int) == prefix {
                let name = first_component(p.skip(prefix.len() as int));
                if names_contain(prev, name) {
                    prev
                } else {
                    prev.push((name, entry_inode(self, p), if self.file_at(k - 1).bytes().len() == 0 { 4u8 } else { 8u8 }))
                }
            } else {
                prev
            }
        }
    }

    /// The entries of directory `dir` (inode `ino`).
    pub open spec fn dir_entries(self, dir: Seq<u8>, ino: u64) -> Seq<DirEntry> {
        self.listing(dir_prefix(dir), ino, self.num_files() as int)
    }
}

/// `n` bytes of `x`, least significant first.
pub open spec fn le_bytes(x: u64, n: nat) -> Seq<u8> {
    Seq::new(n, |j: int| ((x >> ((8 * j) as u64)) & 0xff) as u8)
}

/// The length of the record for a name of `n` bytes: a 19-byte header, the
/// name, a terminating zero, rounded up to 8 bytes.
pub open spec fn reclen_spec(n: nat) -> nat {
    ((n + 27) / 8 * 8) as nat
}

/// The `linux_dirent64` record of entry `e` at position `idx`.
pub open spec fn dirent_bytes(e: DirEntry, idx: int) -> Seq<u8> {
    let r = reclen_spec(e.0.len());
    le_bytes(e.1, 8) + le_bytes((idx + 1) as u64, 8) + le_bytes(r as u64, 2) + seq![e.2] + e.0
        + Seq::new((r - 19 - e.0.len()) as nat, |j: int| 0u8)
}

/// The records of `entries` from position `idx` on that fit in `cap`
/// bytes, stopping at the first that does not, and their count.
pub open spec fn encode_entries(entries: Seq<DirEntry>, idx: int, cap: int) -> (Seq<u8>, nat)
    decreases entries.len() - idx,
{
    if idx < 0 || idx >= entries.len() {
        (Seq::empty(), 0)
    } else {
        let r = reclen_spec(entries[idx].0.len());
        if r > cap {
            (Seq::empty(), 0)
        } else {
            let rest = encode_entries(entries, idx + 1, cap - r);
            (dirent_bytes(entries[idx], idx) + rest.0, rest.1 + 1)
        }
    }
}

/// A listing takes no more bytes than it is given and no more entries
/// than there are.
pub proof fn lemma_encode_len(entries: Seq<DirEntry>, idx: int, cap: int)
    requires
        0 <= idx,
    ensures
        encode_entries(entries, idx, cap).0.len() <= if cap < 0 { 0 } else { cap },
        idx + encode_entries(entries, idx, cap).1 <= if idx <= entries.len() { entries.len() as int } else { idx },
    decreases entries.len() - idx,
{
    if idx < entries.len() {
        let r = reclen_spec(entries[idx].0.len());
        if r <= cap {
            lemma_encode_len(entries, idx + 1, cap - r);
            assert(dirent_bytes(entries[idx], idx).len() == r);
        }
    }
}

/// Writes `n` bytes of `x` at `at`, least significant first.
fn put_le(buf: &mut [u8], at: usize, x: u64, n: usize)
    requires
        n <= 8,
        at + n <= old(buf)@.len(),
    ensures
        final(buf)@ == old(buf)@.take(at as int) + le_bytes(x, n as nat) + old(buf)@.skip(at + n),
{
    let blen = buf.len();
    let mut j: usize = 0;
    while j < n
        invariant
            j <= n <= 8,
            at + n <= buf@.len(),
            blen == buf@.len(),
            buf@.len() == old(buf)@.len(),
            forall|k: int| 0 <= k < at ==> buf@[k] == old(buf)@[k],
            forall|k: int| at + j <= k < buf@.len() ==> buf@[k] == old(buf)@[k],
            forall|k: int| 0 <= k < j ==> buf@[at + k] == le_bytes(x, n as nat)[k],
        decreases n - j,
    {
        let shift: u64 = (8 * j) as u64;
        buf[at + j] = ((x >> shift) & 0xff) as u8;
        j = j + 1;
    }
    assert(buf@ =~= old(buf)@.take(at as int) + le_bytes(x, n as nat) + old(buf)@.skip(at + n));
}

/// Writes the record of `(name, ino, dtype)` at position `idx` into `buf`
/// at `at`.
fn put_dirent(buf: &mut [u8], at: usize, name: &[u8], ino: u64, idx: usize, dtype: u8, reclen: usize)
    requires
        reclen == reclen_spec(name@.len()),
        at + reclen <= old(buf)@.len(),
        idx < usize::MAX,
    ensures
        final(buf)@ == old(buf)@.take(at as int) + dirent_bytes((name@, ino, dtype), idx as int) + old(buf)@.skip(at + reclen),
{
    let ghost b0 = buf@;
    let blen = buf.len();
    assert(reclen >= 20 + name@.len()) by {
        let n = name@.len();
        assert((n + 27) / 8 * 8 >= n + 20);
    }
    put_le(buf, at, ino, 8);
    put_le(buf, at + 8, (idx + 1) as u64, 8);
    put_le(buf, at + 16, reclen as u64, 2);
    buf[at + 18] = dtype;
    let mut j: usize = 0;
    while j < name.len()
        invariant
            j <= name@.len(),
            at + 19 + name@.len() < at + reclen <= buf@.len(),
            buf@.len() == b0.len(),
            blen == b0.len(),
            forall|k: int| 0 <= k < at ==> buf@[k] == b0[k],
            forall|k: int| at + 19 + j <= k < buf@.len() && !(at <= k < at + 19) ==> buf@[k] == b0[k],
            forall|k: int| 0 <= k < 8 ==> buf@[at + k] == #[trigger] le_bytes(ino, 8)[k],
            forall|k: int| 0 <= k < 8 ==> buf@[at + 8 + k] == #[trigger] le_bytes((idx + 1) as u64, 8)[k],
            forall|k: int| 0 <= k < 2 ==> buf@[at + 16 + k] == #[trigger] le_bytes(reclen as u64, 2)[k],
            buf@[at + 18] == dtype,
            forall|k: int| 0 <= k < j ==> buf@[at + 19 + k] == name@[k],
        decreases name@.len() - j,
    {
        buf[at + 19 + j] = name[j];
        j = j + 1;
    }
    let mut k: usize = at + 19 + name.len();
    while k < at + reclen
        invariant
            at + 19 + name@.len() <= k <= at + reclen <= buf@.len(),
            buf@.len() == b0.len(),
            forall|q: int| 0 <= q < at ==> buf@[q] == b0[q],
            forall|q: int| at + reclen <= q < buf@.len() ==> buf@[q] == b0[q],
            forall|q: int| 0 <= q < 8 ==> buf@[at + q] == #[trigger] le_bytes(ino, 8)[q],
            forall|q: int| 0 <= q < 8 ==> buf@[at + 8 + q] == #[trigger] le_bytes((idx + 1) as u64, 8)[q],
            forall|q: int| 0 <= q < 2 ==> buf@[at + 16 + q] == #[trigger] le_bytes(reclen as u64, 2)[q],
            buf@[at + 18] == dtype,
            forall|q: int| 0 <= q < name@.len() ==> buf@[at + 19 + q] == name@[q],
            forall|q: int| at + 19 + name@.len() <= q < k ==> buf@[q] == 0,
        decreases at + reclen - k,
    {
        buf[k] = 0;
        k = k + 1;
    }
    let ghost d = dirent_bytes((name@, ino, dtype), idx as int);
    assert(d.len() == reclen);
    assert forall|q: int| 0 <= q < reclen implies buf@[at + q] == d[q] by {
        if q < 8 {
        } else if q < 16 {
            assert(buf@[at + 8 + (q - 8)] == le_bytes((idx + 1) as u64, 8)[q - 8]);
        } else if q < 18 {
            assert(buf@[at + 16 + (q - 16)] == le_bytes(reclen as u64, 2)[q - 16]);
        } else if q == 18 {
        } else if q < 19 + name@.len() {
            assert(buf@[at + 19 + (q - 19)] == name@[q - 19]);
        } else {
        }
    }
    assert(buf@ =~= b0.take(at as int) + d + b0.skip(at + reclen));
}

/// A directory entry being listed.
pub struct DirEnt {
    pub name: Vec<u8>,
    pub ino: u64,
    pub dtype: u8,
}

pub open spec fn dirents_view(v: Seq<DirEnt>) -> Seq<DirEntry> {
    v.map_values(|e: DirEnt| (e.name@, e.ino, e.dtype))
}

proof fn lemma_slash_unique(r: Seq<u8>, m: int)
    requires
        0 <= m <= r.len(),
        forall|j: int| 0 <= j < m ==> r[j] != 47,
        m == r.len() || r[m] == 47,
    ensures
        slash_at(r, 0) == m,
{
    lemma_slash_at(r, 0);
}

/// Whether some entry of `list` has name `name`.
fn names_contain_exec(list: &Vec<DirEnt>, name: &[u8]) -> (r: bool)
    ensures
        r == names_contain(dirents_view(list@), name@),
{
    let mut m: usize = 0;
    while m < list.len()
        invariant
            m <= list@.len(),
            forall|j: int| 0 <= j < m ==> list@[j].name@ != name@,
        decreases list@.len() - m,
    {
        if path_eq(list[m].name.as_slice(), name) {
            assert(dirents_view(list@)[m as int].0 == name@);
            return true;
        }
        m = m + 1;
    }
    proof {
        if names_contain(dirents_view(list@), name@) {
            let i = choose|i: int| 0 <= i < dirents_view(list@).len() && dirents_view(list@)[i].0 == name@;
            assert(list@[i].name@ == name@);
        }
    }
    false
}

impl RamFs {
    /// The entries of the directory whose paths begin with `prefix`.
    fn list_dir(&self, prefix: &[u8], ino: u64) -> (r: Vec<DirEnt>)
        requires
            self.wf(),
        ensures
            dirents_view(r@) == self.listing(prefix@, ino, self.num_files() as int),
    {
        let mut list: Vec<DirEnt> = Vec::new();
        let mut dot: Vec<u8> = Vec::new();
        dot.push(46);
        let mut dotdot: Vec<u8> = Vec::new();
        dotdot.push(46);
        dotdot.push(46);
        list.push(DirEnt { name: dot, ino, dtype: 4 });
        list.push(DirEnt { name: dotdot, ino, dtype: 4 });
        proof {
            assert(list@[0].name@ =~= seq![46u8]);
            assert(list@[1].name@ =~= seq![46u8, 46u8]);
            assert(dirents_view(list@) =~= self.listing(prefix@, ino, 0));
        }
        let mut k: usize = 0;
        while k < self.entries.len()
            invariant
                self.wf(),
                k <= self.entries@.len(),
                dirents_view(list@) == self.listing(prefix@, ino, k as int),
            decreases self.entries@.len() - k,
        {
            let p = self.entries[k].path.as_slice();
            let plen = prefix.len();
            if plen < p.len() && starts_with(p, prefix) {
                let mut e = plen;
                while e < p.len() && p[e] != 47
                    invariant
                        plen <= e <= p@.len(),
                        forall|j: int| plen <= j < e ==> p@[j] != 47,
                    decreases p@.len() - e,
                {
                    e = e + 1;
                }
                let mut name: Vec<u8> = Vec::new();
                let mut j = plen;
                while j < e
                    invariant
                        plen <= j <= e <= p@.len(),
                        name@ == p@.subrange(plen as int, j as int),
                    decreases e - j,
                {
                    name.push(p[j]);
                    j = j + 1;
                    assert(name@ =~= p@.subrange(plen as int, j as int));
                }
                proof {
                    let r = p@.skip(plen as int);
                    lemma_slash_unique(r, e - plen);
                    assert(name@ =~= first_component(r));
                }
                let seen = names_contain_exec(&list, name.as_slice());
                if !seen {
                    let ino2: u64 = match self.lookup_index(p) {
                        Some(i) => i as u64,
                        None => 0,
                    };
                    let dtype: u8 = if self.entries[k].file.len() == 0 { 4 } else { 8 };
                    list.push(DirEnt { name, ino: ino2, dtype });
                }
            }
            k = k + 1;
            proof {
                assert(dirents_view(list@) =~= self.listing(prefix@, ino, k as int));
            }
        }
        list
    }
}

/// Lists directory inode `inode` into `buf` as `linux_dirent64` records,
/// from entry `offset` on, as many whole records as fit. Returns the bytes
/// written and the offset to continue from; `(0, offset)` when the inode
/// names no directory or `offset` is past its last entry.
pub fn read_dir(fs: &RamFs, inode: usize, buf: &mut [u8], offset: usize) -> (r: (usize, usize))
    requires
        fs.wf(),
    ensures
        ({
            let entries = fs.dir_entries(fs.inode_path(inode as int)->0, inode as u64);
            let listed = fs.inode_path(inode as int) is Some
                && fs.has(fs.inode_path(inode as int)->0)
                && fs.file(fs.inode_path(inode as int)->0).bytes().len() == 0
                && offset < entries.len();
            &&& r.0 <= old(buf)@.len()
            &&& !listed ==> r == (0usize, offset) && final(buf)@ == old(buf)@
            &&& listed ==> {
                let enc = encode_entries(entries, offset as int, old(buf)@.len() as int);
                &&& r.0 == enc.0.len()
                &&& r.1 == offset + enc.1
                &&& final(buf)@ == enc.0 + old(buf)@.skip(enc.0.len() as int)
            }
        }),
{
    let dir = match fs.path_of_inode(inode) {
        Some(p) => p,
        None => return (0, offset),
    };
    match fs.get(dir.as_slice()) {
        Some(f) => {
            if f.len() != 0 {
                return (0, offset);
            }
        },
        None => return (0, offset),
    }
    let mut root: Vec<u8> = Vec::new();
    root.push(47);
    let prefix: Vec<u8> = if path_eq(dir.as_slice(), root.as_slice()) {
        root
    } else {
        let mut s = copy_bytes(dir.as_slice());
        s.push(47);
        s
    };
    proof {
        assert(root@ =~= seq![47u8]);
    }
    let list = fs.list_dir(prefix.as_slice(), inode as u64);
    let ghost entries = dirents_view(list@);
    if offset >= list.len() {
        return (0, offset);
    }
    let cap = buf.len();
    let ghost full = encode_entries(entries, offset as int, cap as int);
    let mut buf_off: usize = 0;
    let mut written: usize = 0;
    let mut idx = offset;
    let mut stop = false;
    proof {
        assert(old(buf)@.skip(0) == old(buf)@);
    }
    while idx < list.len() && !stop
        invariant
            offset <= idx <= list@.len(),
            entries == dirents_view(list@),
            cap == buf@.len(),
            buf@.len() == old(buf)@.len(),
            buf_off <= cap,
            written == idx - offset,
            full == encode_entries(entries, offset as int, cap as int),
            full.0 == buf@.take(buf_off as int) + encode_entries(entries, idx as int, cap - buf_off).0,
            full.1 == written + encode_entries(entries, idx as int, cap - buf_off).1,
            buf@.skip(buf_off as int) == old(buf)@.skip(buf_off as int),
            stop ==> encode_entries(entries, idx as int, cap - buf_off).1 == 0
                && encode_entries(entries, idx as int, cap - buf_off).0.len() == 0,
        decreases list@.len() - idx + (if stop { 0int } else { 1int }),
    {
        let name = list[idx].name.as_slice();
        let wide: u128 = ((name.len() as u128) + 27) & !7u128;
        proof {
            let x = (name.len() + 27) as u128;
            assert(x & !7u128 == (x / 8u128) * 8u128) by (bit_vector);
        }
        if wide > (cap - buf_off) as u128 {
            stop = true;
        } else {
            let reclen = wide as usize;
            {
                let ghost before = buf@;
                put_dirent(buf, buf_off, name, list[idx].ino, idx, list[idx].dtype, reclen);
                proof {
                    let d = dirent_bytes(entries[idx as int], idx as int);
                    assert(buf@ == before.take(buf_off as int) + d + before.skip(buf_off + reclen));
                    assert(buf@.take(buf_off + reclen) =~= before.take(buf_off as int) + d);
                    assert(before.take(buf_off as int) == buf@.take(buf_off as int));
                    assert(buf@.skip(buf_off + reclen) =~= old(buf)@.skip(buf_off + reclen)) by {
                        assert(buf@.skip(buf_off + reclen) =~= before.skip(buf_off + reclen));
                        assert(before.skip(buf_off + reclen) =~= before.skip(buf_off as int).skip(reclen as int));
                        assert(old(buf)@.skip(buf_off + reclen) =~= old(buf)@.skip(buf_off as int).skip(reclen as int));
                    }
                }
                buf_off = buf_off + reclen;
                written = written + 1;
                idx = idx + 1;
                proof {
                    assert(full.0 =~= buf@.take(buf_off as int) + encode_entries(entries, idx as int, cap - buf_off).0);
                }
            }
        }
    }
    proof {
        lemma_encode_len(entries, offset as int, cap as int);
        assert(full.0 =~= buf@.take(buf_off as int));
        assert(buf@ =~= full.0 + old(buf)@.skip(full.0.len() as int));
    }
    (buf_off, offset + written)
}

} // verus!

verus! {
/// The configuration nginx runs with from `/etc/nginx` and its install directory.
pub const NGINX_CONF: &'static str = r#"
daemon off;
worker_processes 1;
error_log /tmp/nginx_install/logs/error.log;
pid /tmp/nginx_install/logs/nginx.pid;
events {
    worker_connections 1024;
}
http {
    server {
        listen 80;
        connection_pool_size 1024;
        server_name localhost;
        location / {
            root /tmp/nginx_install/html;
            index index.html;
        }
    }
}
"#;
/// The configuration of the nginx under `/usr/local/nginx`.
pub const LOCAL_NGINX_CONF: &'static str = r#"
daemon off;
user root root;
worker_processes 1;
error_log /usr/local/nginx/logs/error.log;
pid /usr/local/nginx/logs/nginx.pid;
events {
    worker_connections 1024;
}
http {
    server {
        listen 80;
        connection_pool_size 1024;
        server_name localhost;
        location / {
            root /usr/local/nginx/html;
            index index.html;
        }
    }
}
"#;
/// The page nginx serves.
pub const INDEX_HTML: &'static str = "<html><body><h1>Hello from RVOS nginx!</h1></body></html>";
/// The last of `files` with path `q`.
pub open spec fn last_with(files: Seq<(u8, Seq<u8>, Seq<u8>)>, q: Seq<u8>) -> (u8, Seq<u8>, Seq<u8>)
    decreases files.len(),
{
    if files.len() == 0 {
        (0u8, q, Seq::empty())
    } else if files.last().1 == q {
        files.last()
    } else {
        last_with(files.drop_last(), q)
    }
}

/// Whether one of `files` has path `q`.
pub open spec fn names(files: Seq<(u8, Seq<u8>, Seq<u8>)>, q: Seq<u8>) -> bool {
    exists|i: int| 0 <= i < files.len() && #[trigger] files[i].1 == q
}

/// `after` is `before` with `files` created in order: a directory (kind 0)
/// as an empty read-only file, kind 1 read-only, kind 2 writable; each
/// path holds what was created last under it.
#[verifier::opaque]
pub open spec fn fs_built(before: RamFs, after: RamFs, files: Seq<(u8, Seq<u8>, Seq<u8>)>) -> bool {
    &&& after.wf()
    &&& after.inodes() == before.inodes() + files.map_values(|e: (u8, Seq<u8>, Seq<u8>)| e.1)
    &&& forall|q: Seq<u8>| #[trigger] after.has(q) == (before.has(q) || names(files, q))
    &&& forall|q: Seq<u8>| names(files, q) ==> {
        &&& #[trigger] after.file(q).bytes() == last_with(files, q).2
        &&& after.file(q).is_static() == (last_with(files, q).0 != 2)
    }
    &&& forall|q: Seq<u8>| !names(files, q) && before.has(q) ==> #[trigger] after.file(q) == before.file(q)
}

/// Creates one entry of a table: a directory (kind 0), a read-only file
/// (kind 1) or a writable one.
#[verifier::spinoff_prover]
#[verifier::rlimit(40)]
fn create_entry(fs: &mut RamFs, kind: u8, path: &[u8], data: &[u8], Ghost(before): Ghost<RamFs>, Ghost(files): Ghost<Seq<(u8, Seq<u8>, Seq<u8>)>>)
    requires
        fs_built(before, *old(fs), files),
        kind == 0 ==> data@.len() == 0,
    ensures
        fs_built(before, *final(fs), files.push((kind, path@, data@))),
{
    reveal(fs_built);
    if kind == 0 {
        mkdir(fs, path);
    } else if kind == 2 {
        create_file_dynamic(fs, path, data);
    } else {
        create_file_static(fs, path, data);
    }
    proof {
        if kind == 0 {
            assert(fs.file(path@).bytes() =~= data@);
        }
        let nf = files.push((kind, path@, data@));
        assert(nf.drop_last() =~= files);
        assert(nf.map_values(|e: (u8, Seq<u8>, Seq<u8>)| e.1) =~= files.map_values(|e: (u8, Seq<u8>, Seq<u8>)| e.1).push(path@));
        assert(fs.inodes() =~= before.inodes() + nf.map_values(|e: (u8, Seq<u8>, Seq<u8>)| e.1));
        assert forall|q: Seq<u8>| #[trigger] fs.has(q) == (before.has(q) || names(nf, q)) by {
            if names(files, q) {
                let i = choose|i: int| 0 <= i < files.len() && #[trigger] files[i].1 == q;
                assert(nf[i].1 == q);
            }
            if names(nf, q) && q != path@ {
                let i = choose|i: int| 0 <= i < nf.len() && #[trigger] nf[i].1 == q;
                assert(files[i].1 == q);
            }
            assert(nf[files.len() as int].1 == path@);
        }
        assert forall|q: Seq<u8>| names(nf, q) implies {
            &&& #[trigger] fs.file(q).bytes() == last_with(nf, q).2
            &&& fs.file(q).is_static() == (last_with(nf, q).0 != 2)
        } by {
            if q != path@ {
                let i = choose|i: int| 0 <= i < nf.len() && #[trigger] nf[i].1 == q;
                assert(files[i].1 == q);
                assert(names(files, q));
                assert(last_with(nf, q) == last_with(files, q));
                assert(old(fs).has(q));
            }
        }
        assert forall|q: Seq<u8>| !names(nf, q) && before.has(q) implies #[trigger] fs.file(q) == before.file(q) by {
            assert(nf[files.len() as int].1 == path@);
            if names(files, q) {
                let i = choose|i: int| 0 <= i < files.len() && #[trigger] files[i].1 == q;
                assert(nf[i].1 == q);
            }
        }
    }
}

/// Fills the file system with the kernel's tree: the directories, the
/// executables (`nginx`, `test_malloc`, `busybox` under its applet names),
/// the nginx configurations, pages and logs, the files that libc reads and
/// the name-service library `nss_so` under every path it is looked for at,
/// as `init_files` lists them.
pub fn init(fs: &mut RamFs, nginx: &[u8], test_malloc: &[u8], busybox: &[u8], nss_so: &[u8])
    requires
        old(fs).wf(),
    ensures
        fs_built(*old(fs), *final(fs), init_files(nginx@, test_malloc@, busybox@, nss_so@)),
{
    let empty: Vec<u8> = Vec::new();
    let ghost before = *fs;
    proof {
        reveal(fs_built);
        assert(before.inodes() + Seq::<(u8, Seq<u8>, Seq<u8>)>::empty().map_values(|e: (u8, Seq<u8>, Seq<u8>)| e.1) =~= before.inodes());
        assert(fs_built(before, *fs, Seq::<(u8, Seq<u8>, Seq<u8>)>::empty()));
    }
    let ghost mut files = Seq::<(u8, Seq<u8>, Seq<u8>)>::empty();
    create_entry(fs, 0u8, "/".as_bytes(), empty.as_slice(), Ghost(before), Ghost(files));
    proof { files = files.push((0u8, "/".spec_bytes(), Seq::<u8>::empty())); }
    create_entry(fs, 0u8, "/etc".as_bytes(), empty.as_slice(), Ghost(before), Ghost(files));
    proof { files = files.push((0u8, "/etc".spec_bytes(), Seq::<u8>::empty())); }
    create_entry(fs, 0u8, "/etc/nginx".as_bytes(), empty.as_slice(), Ghost(before), Ghost(files));
    proof { files = files.push((0u8, "/etc/nginx".spec_bytes(), Seq::<u8>::empty())); }
    create_entry(fs, 0u8, "/var".as_bytes(), empty.as_slice(), Ghost(before), Ghost(files));
    proof { files = files.push((0u8, "/var".spec_bytes(), Seq::<u8>::empty())); }
    create_entry(fs, 0u8, "/var/log".as_bytes(), empty.as_slice(), Ghost(before), Ghost(files));
    proof { files = files.push((0u8, "/var/log".spec_bytes(), Seq::<u8>::empty())); }
    create_entry(fs, 0u8, "/var/log/nginx".as_bytes(), empty.as_slice(), Ghost(before), Ghost(files));
    proof { files = files.push((0u8, "/var/log/nginx".spec_bytes(), Seq::<u8>::empty())); }
    create_entry(fs, 0u8, "/usr".as_bytes(), empty.as_slice(), Ghost(before), Ghost(files));
    proof { files = files.push((0u8, "/usr".spec_bytes(), Seq::<u8>::empty())); }
    create_entry(fs, 0u8, "/usr/share".as_bytes(), empty.as_slice(), Ghost(before), Ghost(files));
    proof { files = files.push((0u8, "/usr/share".spec_bytes(), Seq::<u8>::empty())); }
    create_entry(fs, 0u8, "/usr/share/nginx".as_bytes(), empty.as_slice(), Ghost(before), Ghost(files));
    proof { files = files.push((0u8, "/usr/share/nginx".spec_bytes(), Seq::<u8>::empty())); }
    create_entry(fs, 0u8, "/usr/share/nginx/html".as_bytes(), empty.as_slice(), Ghost(before), Ghost(files));
    proof { files = files.push((0u8, "/usr/share/nginx/html".spec_bytes(), Seq::<u8>::empty())); }
    create_entry(fs, 0u8, "/usr/lib".as_bytes(), empty.as_slice(), Ghost(before), Ghost(files));
    proof { files = files.push((0u8, "/usr/lib".spec_bytes(), Seq::<u8>::empty())); }
    create_entry(fs, 0u8, "/usr/lib/riscv64-linux-gnu".as_bytes(), empty.as_slice(), Ghost(before), Ghost(files));
    proof { files = files.push((0u8, "/usr/lib/riscv64-linux-gnu".spec_bytes(), Seq::<u8>::empty())); }
    create_entry(fs, 0u8, "/usr/lib/riscv64-linux-gnu/tls".as_bytes(), empty.as_slice(), Ghost(before), Ghost(files));
    proof { files = files.push((0u8, "/usr/lib/riscv64-linux-gnu/tls".spec_bytes(), Seq::<u8>::empty())); }
    create_entry(fs, 0u8, "/usr/lib/tls".as_bytes(), empty.as_slice(), Ghost(before), Ghost(files));
    proof { files = files.push((0u8, "/usr/lib/tls".spec_bytes(), Seq::<u8>::empty())); }
    create_entry(fs, 0u8, "/lib".as_bytes(), empty.as_slice(), Ghost(before), Ghost(files));
    proof { files = files.push((0u8, "/lib".spec_bytes(), Seq::<u8>::empty())); }
    create_entry(fs, 0u8, "/lib/riscv64-linux-gnu".as_bytes(), empty.as_slice(), Ghost(before), Ghost(files));
    proof { files = files.push((0u8, "/lib/riscv64-linux-gnu".spec_bytes(), Seq::<u8>::empty())); }
    create_entry(fs, 0u8, "/lib/riscv64-linux-gnu/tls".as_bytes(), empty.as_slice(), Ghost(before), Ghost(files));
    proof { files = files.push((0u8, "/lib/riscv64-linux-gnu/tls".spec_bytes(), Seq::<u8>::empty())); }
    create_entry(fs, 0u8, "/lib/tls".as_bytes(), empty.as_slice(), Ghost(before), Ghost(files));
    proof { files = files.push((0u8, "/lib/tls".spec_bytes(), Seq::<u8>::empty())); }
    create_entry(fs, 0u8, "/tmp".as_bytes(), empty.as_slice(), Ghost(before), Ghost(files));
    proof { files = files.push((0u8, "/tmp".spec_bytes(), Seq::<u8>::empty())); }
    create_entry(fs, 0u8, "/tmp/nginx_install".as_bytes(), empty.as_slice(), Ghost(before), Ghost(files));
    proof { files = files.push((0u8, "/tmp/nginx_install".spec_bytes(), Seq::<u8>::empty())); }
    create_entry(fs, 0u8, "/tmp/nginx_install/logs".as_bytes(), empty.as_slice(), Ghost(before), Ghost(files));
    proof { files = files.push((0u8, "/tmp/nginx_install/logs".spec_bytes(), Seq::<u8>::empty())); }
    create_entry(fs, 0u8, "/tmp/nginx_install/conf".as_bytes(), empty.as_slice(), Ghost(before), Ghost(files));
    proof { files = files.push((0u8, "/tmp/nginx_install/conf".spec_bytes(), Seq::<u8>::empty())); }
    create_entry(fs, 0u8, "/tmp/nginx_install/html".as_bytes(), empty.as_slice(), Ghost(before), Ghost(files));
    proof { files = files.push((0u8, "/tmp/nginx_install/html".spec_bytes(), Seq::<u8>::empty())); }
    create_entry(fs, 0u8, "/sbin".as_bytes(), empty.as_slice(), Ghost(before), Ghost(files));
    proof { files = files.push((0u8, "/sbin".spec_bytes(), Seq::<u8>::empty())); }
    create_entry(fs, 0u8, "/sys".as_bytes(), empty.as_slice(), Ghost(before), Ghost(files));
    proof { files = files.push((0u8, "/sys".spec_bytes(), Seq::<u8>::empty())); }
    create_entry(fs, 0u8, "/sys/devices".as_bytes(), empty.as_slice(), Ghost(before), Ghost(files));
    proof { files = files.push((0u8, "/sys/devices".spec_bytes(), Seq::<u8>::empty())); }
    create_entry(fs, 0u8, "/sys/devices/system".as_bytes(), empty.as_slice(), Ghost(before), Ghost(files));
    proof { files = files.push((0u8, "/sys/devices/system".spec_bytes(), Seq::<u8>::empty())); }
    create_entry(fs, 0u8, "/sys/devices/system/cpu".as_bytes(), empty.as_slice(), Ghost(before), Ghost(files));
    proof { files = files.push((0u8, "/sys/devices/system/cpu".spec_bytes(), Seq::<u8>::empty())); }
    create_entry(fs, 0u8, "/proc".as_bytes(), empty.as_slice(), Ghost(before), Ghost(files));
    proof { files = files.push((0u8, "/proc".spec_bytes(), Seq::<u8>::empty())); }
    create_entry(fs, 1u8, "/sbin/nginx".as_bytes(), nginx, Ghost(before), Ghost(files));
    proof { files = files.push((1u8, "/sbin/nginx".spec_bytes(), nginx@)); }
    create_entry(fs, 1u8, "/test_malloc".as_bytes(), test_malloc, Ghost(before), Ghost(files));
    proof { files = files.push((1u8, "/test_malloc".spec_bytes(), test_malloc@)); }
    create_entry(fs, 0u8, "/bin".as_bytes(), empty.as_slice(), Ghost(before), Ghost(files));
    proof { files = files.push((0u8, "/bin".spec_bytes(), Seq::<u8>::empty())); }
    create_entry(fs, 1u8, "/bin/busybox".as_bytes(), busybox, Ghost(before), Ghost(files));
    proof { files = files.push((1u8, "/bin/busybox".spec_bytes(), busybox@)); }
    create_entry(fs, 1u8, "/bin/sh".as_bytes(), busybox, Ghost(before), Ghost(files));
    proof { files = files.push((1u8, "/bin/sh".spec_bytes(), busybox@)); }
    create_entry(fs, 1u8, "/bin/ls".as_bytes(), busybox, Ghost(before), Ghost(files));
    proof { files = files.push((1u8, "/bin/ls".spec_bytes(), busybox@)); }
    create_entry(fs, 1u8, "/bin/cat".as_bytes(), busybox, Ghost(before), Ghost(files));
    proof { files = files.push((1u8, "/bin/cat".spec_bytes(), busybox@)); }
    create_entry(fs, 1u8, "/bin/echo".as_bytes(), busybox, Ghost(before), Ghost(files));
    proof { files = files.push((1u8, "/bin/echo".spec_bytes(), busybox@)); }
    create_entry(fs, 1u8, "/bin/pwd".as_bytes(), busybox, Ghost(before), Ghost(files));
    proof { files = files.push((1u8, "/bin/pwd".spec_bytes(), busybox@)); }
    create_entry(fs, 1u8, "/bin/mkdir".as_bytes(), busybox, Ghost(before), Ghost(files));
    proof { files = files.push((1u8, "/bin/mkdir".spec_bytes(), busybox@)); }
    create_entry(fs, 1u8, "/bin/ps".as_bytes(), busybox, Ghost(before), Ghost(files));
    proof { files = files.push((1u8, "/bin/ps".spec_bytes(), busybox@)); }
    create_entry(fs, 1u8, "/etc/nginx/nginx.conf".as_bytes(), NGINX_CONF.as_bytes(), Ghost(before), Ghost(files));
    proof { files = files.push((1u8, "/etc/nginx/nginx.conf".spec_bytes(), NGINX_CONF.spec_bytes())); }
    create_entry(fs, 1u8, "/tmp/nginx_install/conf/nginx.conf".as_bytes(), NGINX_CONF.as_bytes(), Ghost(before), Ghost(files));
    proof { files = files.push((1u8, "/tmp/nginx_install/conf/nginx.conf".spec_bytes(), NGINX_CONF.spec_bytes())); }
    create_entry(fs, 1u8, "/usr/share/nginx/html/index.html".as_bytes(), INDEX_HTML.as_bytes(), Ghost(before), Ghost(files));
    proof { files = files.push((1u8, "/usr/share/nginx/html/index.html".spec_bytes(), INDEX_HTML.spec_bytes())); }
    create_entry(fs, 1u8, "/tmp/nginx_install/html/index.html".as_bytes(), INDEX_HTML.as_bytes(), Ghost(before), Ghost(files));
    proof { files = files.push((1u8, "/tmp/nginx_install/html/index.html".spec_bytes(), INDEX_HTML.spec_bytes())); }
    create_entry(fs, 2u8, "/var/log/nginx/error.log".as_bytes(), empty.as_slice(), Ghost(before), Ghost(files));
    proof { files = files.push((2u8, "/var/log/nginx/error.log".spec_bytes(), Seq::<u8>::empty())); }
    create_entry(fs, 2u8, "/var/log/nginx/access.log".as_bytes(), empty.as_slice(), Ghost(before), Ghost(files));
    proof { files = files.push((2u8, "/var/log/nginx/access.log".spec_bytes(), Seq::<u8>::empty())); }
    create_entry(fs, 2u8, "/tmp/nginx_install/logs/error.log".as_bytes(), empty.as_slice(), Ghost(before), Ghost(files));
    proof { files = files.push((2u8, "/tmp/nginx_install/logs/error.log".spec_bytes(), Seq::<u8>::empty())); }
    create_entry(fs, 2u8, "/tmp/nginx_install/logs/access.log".as_bytes(), empty.as_slice(), Ghost(before), Ghost(files));
    proof { files = files.push((2u8, "/tmp/nginx_install/logs/access.log".spec_bytes(), Seq::<u8>::empty())); }
    create_entry(fs, 0u8, "/usr/local".as_bytes(), empty.as_slice(), Ghost(before), Ghost(files));
    proof { files = files.push((0u8, "/usr/local".spec_bytes(), Seq::<u8>::empty())); }
    create_entry(fs, 0u8, "/usr/local/nginx".as_bytes(), empty.as_slice(), Ghost(before), Ghost(files));
    proof { files = files.push((0u8, "/usr/local/nginx".spec_bytes(), Seq::<u8>::empty())); }
    create_entry(fs, 0u8, "/usr/local/nginx/conf".as_bytes(), empty.as_slice(), Ghost(before), Ghost(files));
    proof { files = files.push((0u8, "/usr/local/nginx/conf".spec_bytes(), Seq::<u8>::empty())); }
    create_entry(fs, 0u8, "/usr/local/nginx/logs".as_bytes(), empty.as_slice(), Ghost(before), Ghost(files));
    proof { files = files.push((0u8, "/usr/local/nginx/logs".spec_bytes(), Seq::<u8>::empty())); }
    create_entry(fs, 0u8, "/usr/local/nginx/html".as_bytes(), empty.as_slice(), Ghost(before), Ghost(files));
    proof { files = files.push((0u8, "/usr/local/nginx/html".spec_bytes(), Seq::<u8>::empty())); }
    create_entry(fs, 1u8, "/usr/local/nginx/conf/nginx.conf".as_bytes(), LOCAL_NGINX_CONF.as_bytes(), Ghost(before), Ghost(files));
    proof { files = files.push((1u8, "/usr/local/nginx/conf/nginx.conf".spec_bytes(), LOCAL_NGINX_CONF.spec_bytes())); }
    create_entry(fs, 2u8, "/usr/local/nginx/logs/error.log".as_bytes(), empty.as_slice(), Ghost(before), Ghost(files));
    proof { files = files.push((2u8, "/usr/local/nginx/logs/error.log".spec_bytes(), Seq::<u8>::empty())); }
    create_entry(fs, 2u8, "/usr/local/nginx/logs/access.log".as_bytes(), empty.as_slice(), Ghost(before), Ghost(files));
    proof { files = files.push((2u8, "/usr/local/nginx/logs/access.log".spec_bytes(), Seq::<u8>::empty())); }
    create_entry(fs, 2u8, "/usr/local/nginx/logs/nginx.pid".as_bytes(), empty.as_slice(), Ghost(before), Ghost(files));
    proof { files = files.push((2u8, "/usr/local/nginx/logs/nginx.pid".spec_bytes(), Seq::<u8>::empty())); }
    create_entry(fs, 1u8, "/usr/local/nginx/html/index.html".as_bytes(), INDEX_HTML.as_bytes(), Ghost(before), Ghost(files));
    proof { files = files.push((1u8, "/usr/local/nginx/html/index.html".spec_bytes(), INDEX_HTML.spec_bytes())); }
    create_entry(fs, 1u8, "/sys/devices/system/cpu/online".as_bytes(), "0-0\n".as_bytes(), Ghost(before), Ghost(files));
    proof { files = files.push((1u8, "/sys/devices/system/cpu/online".spec_bytes(), "0-0\n".spec_bytes())); }
    create_entry(fs, 1u8, "/proc/stat".as_bytes(), "cpu  0 0 0 0 0 0 0 0 0 0\n".as_bytes(), Ghost(before), Ghost(files));
    proof { files = files.push((1u8, "/proc/stat".spec_bytes(), "cpu  0 0 0 0 0 0 0 0 0 0\n".spec_bytes())); }
    create_entry(fs, 1u8, "/proc/cpuinfo".as_bytes(), "processor\t: 0\n".as_bytes(), Ghost(before), Ghost(files));
    proof { files = files.push((1u8, "/proc/cpuinfo".spec_bytes(), "processor\t: 0\n".spec_bytes())); }
    create_entry(fs, 1u8, "/etc/localtime".as_bytes(), empty.as_slice(), Ghost(before), Ghost(files));
    proof { files = files.push((1u8, "/etc/localtime".spec_bytes(), Seq::<u8>::empty())); }
    create_entry(fs, 1u8, "/etc/nsswitch.conf".as_bytes(), "passwd: files\n".as_bytes(), Ghost(before), Ghost(files));
    proof { files = files.push((1u8, "/etc/nsswitch.conf".spec_bytes(), "passwd: files\n".spec_bytes())); }
    create_entry(fs, 1u8, "/etc/passwd".as_bytes(), "root:x:0:0:root:/root:/bin/sh\n".as_bytes(), Ghost(before), Ghost(files));
    proof { files = files.push((1u8, "/etc/passwd".spec_bytes(), "root:x:0:0:root:/root:/bin/sh\n".spec_bytes())); }
    create_entry(fs, 1u8, "/etc/group".as_bytes(), "root:x:0:\n".as_bytes(), Ghost(before), Ghost(files));
    proof { files = files.push((1u8, "/etc/group".spec_bytes(), "root:x:0:\n".spec_bytes())); }
    create_entry(fs, 1u8, "/lib/riscv64-linux-gnu/libnss_files.so.2".as_bytes(), nss_so, Ghost(before), Ghost(files));
    proof { files = files.push((1u8, "/lib/riscv64-linux-gnu/libnss_files.so.2".spec_bytes(), nss_so@)); }
    create_entry(fs, 1u8, "/lib/riscv64-linux-gnu/tls/libnss_files.so.2".as_bytes(), nss_so, Ghost(before), Ghost(files));
    proof { files = files.push((1u8, "/lib/riscv64-linux-gnu/tls/libnss_files.so.2".spec_bytes(), nss_so@)); }
    create_entry(fs, 1u8, "/usr/lib/riscv64-linux-gnu/libnss_files.so.2".as_bytes(), nss_so, Ghost(before), Ghost(files));
    proof { files = files.push((1u8, "/usr/lib/riscv64-linux-gnu/libnss_files.so.2".spec_bytes(), nss_so@)); }
    create_entry(fs, 1u8, "/usr/lib/riscv64-linux-gnu/tls/libnss_files.so.2".as_bytes(), nss_so, Ghost(before), Ghost(files));
    proof { files = files.push((1u8, "/usr/lib/riscv64-linux-gnu/tls/libnss_files.so.2".spec_bytes(), nss_so@)); }
    create_entry(fs, 1u8, "/lib/libnss_files.so.2".as_bytes(), nss_so, Ghost(before), Ghost(files));
    proof { files = files.push((1u8, "/lib/libnss_files.so.2".spec_bytes(), nss_so@)); }
    create_entry(fs, 1u8, "/lib/tls/libnss_files.so.2".as_bytes(), nss_so, Ghost(before), Ghost(files));
    proof { files = files.push((1u8, "/lib/tls/libnss_files.so.2".spec_bytes(), nss_so@)); }
    create_entry(fs, 1u8, "/usr/lib/libnss_files.so.2".as_bytes(), nss_so, Ghost(before), Ghost(files));
    proof { files = files.push((1u8, "/usr/lib/libnss_files.so.2".spec_bytes(), nss_so@)); }
    create_entry(fs, 1u8, "/usr/lib/tls/libnss_files.so.2".as_bytes(), nss_so, Ghost(before), Ghost(files));
    proof { files = files.push((1u8, "/usr/lib/tls/libnss_files.so.2".spec_bytes(), nss_so@)); }
}

/// What `init` creates, in order: the kind (0 a directory, 1 a
/// read-only file, 2 a writable file), the path and the contents.
pub open spec fn init_files(nginx: Seq<u8>, test_malloc: Seq<u8>, busybox: Seq<u8>, nss_so: Seq<u8>) -> Seq<(u8, Seq<u8>, Seq<u8>)> {
    Seq::<(u8, Seq<u8>, Seq<u8>)>::empty()
        .push((0u8, "/".spec_bytes(), Seq::<u8>::empty()))
        .push((0u8, "/etc".spec_bytes(), Seq::<u8>::empty()))
        .push((0u8, "/etc/nginx".spec_bytes(), Seq::<u8>::empty()))
        .push((0u8, "/var".spec_bytes(), Seq::<u8>::empty()))
        .push((0u8, "/var/log".spec_bytes(), Seq::<u8>::empty()))
        .push((0u8, "/var/log/nginx".spec_bytes(), Seq::<u8>::empty()))
        .push((0u8, "/usr".spec_bytes(), Seq::<u8>::empty()))
        .push((0u8, "/usr/share".spec_bytes(), Seq::<u8>::empty()))
        .push((0u8, "/usr/share/nginx".spec_bytes(), Seq::<u8>::empty()))
        .push((0u8, "/usr/share/nginx/html".spec_bytes(), Seq::<u8>::empty()))
        .push((0u8, "/usr/lib".spec_bytes(), Seq::<u8>::empty()))
        .push((0u8, "/usr/lib/riscv64-linux-gnu".spec_bytes(), Seq::<u8>::empty()))
        .push((0u8, "/usr/lib/riscv64-linux-gnu/tls".spec_bytes(), Seq::<u8>::empty()))
        .push((0u8, "/usr/lib/tls".spec_bytes(), Seq::<u8>::empty()))
        .push((0u8, "/lib".spec_bytes(), Seq::<u8>::empty()))
        .push((0u8, "/lib/riscv64-linux-gnu".spec_bytes(), Seq::<u8>::empty()))
        .push((0u8, "/lib/riscv64-linux-gnu/tls".spec_bytes(), Seq::<u8>::empty()))
        .push((0u8, "/lib/tls".spec_bytes(), Seq::<u8>::empty()))
        .push((0u8, "/tmp".spec_bytes(), Seq::<u8>::empty()))
        .push((0u8, "/tmp/nginx_install".spec_bytes(), Seq::<u8>::empty()))
        .push((0u8, "/tmp/nginx_install/logs".spec_bytes(), Seq::<u8>::empty()))
        .push((0u8, "/tmp/nginx_install/conf".spec_bytes(), Seq::<u8>::empty()))
        .push((0u8, "/tmp/nginx_install/html".spec_bytes(), Seq::<u8>::empty()))
        .push((0u8, "/sbin".spec_bytes(), Seq::<u8>::empty()))
        .push((0u8, "/sys".spec_bytes(), Seq::<u8>::empty()))
        .push((0u8, "/sys/devices".spec_bytes(), Seq::<u8>::empty()))
        .push((0u8, "/sys/devices/system".spec_bytes(), Seq::<u8>::empty()))
        .push((0u8, "/sys/devices/system/cpu".spec_bytes(), Seq::<u8>::empty()))
        .push((0u8, "/proc".spec_bytes(), Seq::<u8>::empty()))
        .push((1u8, "/sbin/nginx".spec_bytes(), nginx))
        .push((1u8, "/test_malloc".spec_bytes(), test_malloc))
        .push((0u8, "/bin".spec_bytes(), Seq::<u8>::empty()))
        .push((1u8, "/bin/busybox".spec_bytes(), busybox))
        .push((1u8, "/bin/sh".spec_bytes(), busybox))
        .push((1u8, "/bin/ls".spec_bytes(), busybox))
        .push((1u8, "/bin/cat".spec_bytes(), busybox))
        .push((1u8, "/bin/echo".spec_bytes(), busybox))
        .push((1u8, "/bin/pwd".spec_bytes(), busybox))
        .push((1u8, "/bin/mkdir".spec_bytes(), busybox))
        .push((1u8, "/bin/ps".spec_bytes(), busybox))
        .push((1u8, "/etc/nginx/nginx.conf".spec_bytes(), NGINX_CONF.spec_bytes()))
        .push((1u8, "/tmp/nginx_install/conf/nginx.conf".spec_bytes(), NGINX_CONF.spec_bytes()))
        .push((1u8, "/usr/share/nginx/html/index.html".spec_bytes(), INDEX_HTML.spec_bytes()))
        .push((1u8, "/tmp/nginx_install/html/index.html".spec_bytes(), INDEX_HTML.spec_bytes()))
        .push((2u8, "/var/log/nginx/error.log".spec_bytes(), Seq::<u8>::empty()))
        .push((2u8, "/var/log/nginx/access.log".spec_bytes(), Seq::<u8>::empty()))
        .push((2u8, "/tmp/nginx_install/logs/error.log".spec_bytes(), Seq::<u8>::empty()))
        .push((2u8, "/tmp/nginx_install/logs/access.log".spec_bytes(), Seq::<u8>::empty()))
        .push((0u8, "/usr/local".spec_bytes(), Seq::<u8>::empty()))
        .push((0u8, "/usr/local/nginx".spec_bytes(), Seq::<u8>::empty()))
        .push((0u8, "/usr/local/nginx/conf".spec_bytes(), Seq::<u8>::empty()))
        .push((0u8, "/usr/local/nginx/logs".spec_bytes(), Seq::<u8>::empty()))
        .push((0u8, "/usr/local/nginx/html".spec_bytes(), Seq::<u8>::empty()))
        .push((1u8, "/usr/local/nginx/conf/nginx.conf".spec_bytes(), LOCAL_NGINX_CONF.spec_bytes()))
        .push((2u8, "/usr/local/nginx/logs/error.log".spec_bytes(), Seq::<u8>::empty()))
        .push((2u8, "/usr/local/nginx/logs/access.log".spec_bytes(), Seq::<u8>::empty()))
        .push((2u8, "/usr/local/nginx/logs/nginx.pid".spec_bytes(), Seq::<u8>::empty()))
        .push((1u8, "/usr/local/nginx/html/index.html".spec_bytes(), INDEX_HTML.spec_bytes()))
        .push((1u8, "/sys/devices/system/cpu/online".spec_bytes(), "0-0\n".spec_bytes()))
        .push((1u8, "/proc/stat".spec_bytes(), "cpu  0 0 0 0 0 0 0 0 0 0\n".spec_bytes()))
        .push((1u8, "/proc/cpuinfo".spec_bytes(), "processor\t: 0\n".spec_bytes()))
        .push((1u8, "/etc/localtime".spec_bytes(), Seq::<u8>::empty()))
        .push((1u8, "/etc/nsswitch.conf".spec_bytes(), "passwd: files\n".spec_bytes()))
        .push((1u8, "/etc/passwd".spec_bytes(), "root:x:0:0:root:/root:/bin/sh\n".spec_bytes()))
        .push((1u8, "/etc/group".spec_bytes(), "root:x:0:\n".spec_bytes()))
        .push((1u8, "/lib/riscv64-linux-gnu/libnss_files.so.2".spec_bytes(), nss_so))
        .push((1u8, "/lib/riscv64-linux-gnu/tls/libnss_files.so.2".spec_bytes(), nss_so))
        .push((1u8, "/usr/lib/riscv64-linux-gnu/libnss_files.so.2".spec_bytes(), nss_so))
        .push((1u8, "/usr/lib/riscv64-linux-gnu/tls/libnss_files.so.2".spec_bytes(), nss_so))
        .push((1u8, "/lib/libnss_files.so.2".spec_bytes(), nss_so))
        .push((1u8, "/lib/tls/libnss_files.so.2".spec_bytes(), nss_so))
        .push((1u8, "/usr/lib/libnss_files.so.2".spec_bytes(), nss_so))
        .push((1u8, "/usr/lib/tls/libnss_files.so.2".spec_bytes(), nss_so))
}

} // verus!

verus! {

/// The positions of the entries that listing `entries` from `idx` on, into
/// buffers of `cap` bytes, lists over call after call, each call resuming
/// where the one before stopped, until a call lists none.
pub open spec fn resumed_listing(entries: Seq<DirEntry>, idx: int, cap: int) -> Seq<int>
    decreases entries.len() - idx,
{
    if idx < 0 || idx >= entries.len() {
        Seq::empty()
    } else {
        let n = encode_entries(entries, idx, cap).1;
        if n == 0 || idx + n > entries.len() {
            Seq::empty()
        } else {
            Seq::new(n, |j: int| idx + j) + resumed_listing(entries, idx + n, cap)
        }
    }
}

/// A listing from `idx` takes at least the entry at `idx` when its record
/// fits, and never more entries than there are.
proof fn lemma_encode_count(entries: Seq<DirEntry>, idx: int, cap: int)
    requires
        0 <= idx,
    ensures
        encode_entries(entries, idx, cap).1 <= if idx < entries.len() { entries.len() - idx } else { 0 },
        idx < entries.len() && reclen_spec(entries[idx].0.len()) <= cap ==> encode_entries(entries, idx, cap).1 >= 1,
    decreases entries.len() - idx,
{
    if idx < entries.len() {
        let r = reclen_spec(entries[idx].0.len());
        if r <= cap {
            lemma_encode_count(entries, idx + 1, cap - r);
        }
    }
}

proof fn lemma_resumed_from(entries: Seq<DirEntry>, idx: int, cap: int)
    requires
        0 <= idx <= entries.len(),
        forall|j: int| 0 <= j < entries.len() ==> #[trigger] reclen_spec(entries[j].0.len()) <= cap,
    ensures
        resumed_listing(entries, idx, cap) == Seq::new((entries.len() - idx) as nat, |j: int| idx + j),
    decreases entries.len() - idx,
{
    if idx < entries.len() {
        lemma_encode_count(entries, idx, cap);
        let n = encode_entries(entries, idx, cap).1 as int;
        lemma_resumed_from(entries, idx + n, cap);
        assert(resumed_listing(entries, idx, cap)
            =~= Seq::new((entries.len() - idx) as nat, |j: int| idx + j));
    } else {
        assert(resumed_listing(entries, idx, cap) =~= Seq::new(0, |j: int| idx + j));
    }
}

impl RamFs {
    /// No name is listed twice.
    proof fn lemma_listing_distinct(self, prefix: Seq<u8>, ino: u64, k: int)
        ensures
            forall|i: int, j: int| 0 <= i < j < self.listing(prefix, ino, k).len()
                ==> self.listing(prefix, ino, k)[i].0 != self.listing(prefix, ino, k)[j].0,
        decreases k,
    {
        if k <= 0 {
            assert(seq![46u8] != seq![46u8, 46u8]) by {
                assert(seq![46u8].len() != seq![46u8, 46u8].len());
            }
        } else {
            self.lemma_listing_distinct(prefix, ino, k - 1);
            let prev = self.listing(prefix, ino, k - 1);
            let cur = self.listing(prefix, ino, k);
            assert forall|i: int, j: int| 0 <= i < j < cur.len() implies cur[i].0 != cur[j].0 by {
                if j == prev.len() {
                    assert(cur[i] == prev[i]);
                }
            }
        }
    }
}

/// Law: a directory listed with `read_dir` call after call, each call
/// resuming from the offset the one before returned, into a buffer of at
/// least 280 bytes, lists every entry exactly once and in order, where
/// every name is shorter than 256 bytes; no two entries have the same
/// name.
pub proof fn law_read_dir_lists_each_name_once(fs: RamFs, inode: usize, cap: int)
    requires
        cap >= 280,
        forall|j: int| 0 <= j < fs.dir_entries(fs.inode_path(inode as int)->0, inode as u64).len()
            ==> #[trigger] fs.dir_entries(fs.inode_path(inode as int)->0, inode as u64)[j].0.len() < 256,
    ensures
        ({
            let e = fs.dir_entries(fs.inode_path(inode as int)->0, inode as u64);
            &&& resumed_listing(e, 0, cap) == Seq::new(e.len(), |j: int| j)
            &&& forall|i: int, j: int| 0 <= i < j < e.len() ==> e[i].0 != e[j].0
        }),
{
    let dir = fs.inode_path(inode as int)->0;
    let e = fs.dir_entries(dir, inode as u64);
    assert forall|j: int| 0 <= j < e.len() implies #[trigger] reclen_spec(e[j].0.len()) <= cap by {
        let n = e[j].0.len();
        assert(n < 256);
        assert((n + 27) / 8 * 8 <= 280) by (nonlinear_arith)
            requires n < 256;
    }
    law_read_dir_resume_lists_each_once(e, cap);
    fs.lemma_listing_distinct(dir_prefix(dir), inode as u64, fs.num_files() as int);
}

/// Law: listing a directory call after call, each `read_dir` resuming from
/// the offset the one before returned, with a buffer that holds the record
/// of every entry, lists every entry exactly once, in order.
pub proof fn law_read_dir_resume_lists_each_once(entries: Seq<DirEntry>, cap: int)
    requires
        forall|j: int| 0 <= j < entries.len() ==> #[trigger] reclen_spec(entries[j].0.len()) <= cap,
    ensures
        resumed_listing(entries, 0, cap) == Seq::new(entries.len(), |j: int| j),
{
    lemma_resumed_from(entries, 0, cap);
    assert(Seq::new(entries.len(), |j: int| 0 + j) =~= Seq::new(entries.len(), |j: int| j));
}

/// Law: a write puts `buf` at `offset`, keeps every other byte the file
/// had, zero-fills any gap, and leaves the file as long as its old end or
/// the write's end, whichever is further.
pub proof fn law_write_contents(old: Seq<u8>, buf: Seq<u8>, offset: nat)
    ensures
        written_bytes(old, buf, offset as int).subrange(offset as int, (offset + buf.len()) as int) == buf,
        written_bytes(old, buf, offset as int).len() == vstd::math::max(old.len() as int, (offset + buf.len()) as int),
        forall|i: int| 0 <= i < old.len() && !(offset <= i < offset + buf.len())
            ==> #[trigger] written_bytes(old, buf, offset as int)[i] == old[i],
        forall|i: int| old.len() <= i < offset ==> #[trigger] written_bytes(old, buf, offset as int)[i] == 0,
{
    assert(written_bytes(old, buf, offset as int).subrange(offset as int, (offset + buf.len()) as int) =~= buf);
}

/// Law: what `write_inode` wrote into a writable file at an offset, a read
/// of the same length at that offset gives back: the file that the inode
/// names afterwards holds the written bytes there.
pub proof fn law_write_then_read(before: RamFs, after: RamFs, inode: usize, buf: Seq<u8>, offset: usize)
    requires
        before.wf(),
        before.inode_file(inode as int) matches Some(f) && !f.is_static(),
        after.inodes() == before.inodes(),
        forall|q: Seq<u8>| #[trigger] after.has(q) == before.has(q),
        after.file(before.inode_path(inode as int)->0).bytes()
            == written_bytes(before.inode_file(inode as int)->0.bytes(), buf, offset as int),
    ensures
        after.inode_file(inode as int) matches Some(g)
            && g.bytes().subrange(offset as int, offset + buf.len()) == buf
            && vstd::math::min(g.bytes().len() - offset, buf.len() as int) == buf.len(),
{
    let p = before.inode_path(inode as int)->0;
    assert(after.inode_path(inode as int) == before.inode_path(inode as int));
    assert(after.has(p));
    law_write_contents(before.inode_file(inode as int)->0.bytes(), buf, offset as nat);
}

/// Law: once a file has been created at a path, `lookup` finds that path,
/// and a path that was found before keeps its inode.
pub proof fn law_create_then_lookup(before: RamFs, after: RamFs, p: Seq<u8>)
    requires
        after.inodes() == before.inodes().push(p),
    ensures
        after.lookup_spec(p) is Some,
        before.lookup_spec(p) is Some ==> after.lookup_spec(p) == before.lookup_spec(p),
        before.lookup_spec(p) is None ==> after.lookup_spec(p) == Some((before.inodes().len() + 1) as usize),
{
    lemma_first_index_push(before.inodes(), p, p, 0);
}

} // verus!
