//! The table of open file descriptors.
use vstd::prelude::*;
use crate::fs::OpenFile;

verus! {

/// Open files by descriptor number; `None` marks a free slot.
pub struct FdTable {
    files: Vec<Option<OpenFile>>,
}

impl Clone for FdTable {
    fn clone(&self) -> (r: Self)
        ensures
            r@ == self@,
    {
        let mut files: Vec<Option<OpenFile>> = Vec::with_capacity(self.files.len());
        let mut i: usize = 0;
        while i < self.files.len()
            invariant
                i <= self.files@.len(),
                files@ == self.files@.take(i as int),
            decreases self.files@.len() - i,
        {
            files.push(self.files[i]);
            i = i + 1;
            assert(files@ =~= self.files@.take(i as int));
        }
        assert(self.files@.take(self.files@.len() as int) =~= self.files@);
        FdTable { files }
    }
}

/// The description that standard input, output and error start with.
pub open spec fn stdio_file() -> OpenFile {
    OpenFile { inode: 0, offset: 0, readable: true, writable: true, pipe_id: None }
}

/// The lowest free slot of `s`, or its length when none is free.
pub open spec fn first_free(s: Seq<Option<OpenFile>>) -> int {
    if exists|i: int| 0 <= i < s.len() && s[i] is None {
        choose|i: int| 0 <= i < s.len() && s[i] is None && forall|j: int| 0 <= j < i ==> s[j] is Some
    } else {
        s.len() as int
    }
}

impl FdTable {
    pub closed spec fn view(&self) -> Seq<Option<OpenFile>> {
        self.files@
    }

    /// The description behind descriptor `fd`.
    pub open spec fn get_spec(&self, fd: int) -> Option<OpenFile> {
        if 0 <= fd < self@.len() {
            self@[fd]
        } else {
            None
        }
    }

    /// A table with standard input, output and error open.
    pub fn new() -> (t: FdTable)
        ensures
            t@ == seq![Some(stdio_file()), Some(stdio_file()), Some(stdio_file())],
    {
        let mut files: Vec<Option<OpenFile>> = Vec::with_capacity(64);
        files.push(Some(OpenFile { inode: 0, offset: 0, readable: true, writable: true, pipe_id: None }));
        files.push(Some(OpenFile { inode: 0, offset: 0, readable: true, writable: true, pipe_id: None }));
        files.push(Some(OpenFile { inode: 0, offset: 0, readable: true, writable: true, pipe_id: None }));
        let t = FdTable { files };
        assert(t@ =~= seq![Some(stdio_file()), Some(stdio_file()), Some(stdio_file())]);
        t
    }

    /// Puts `file` in the lowest free slot (a new one at the end when none
    /// is free) and returns its descriptor.
    pub fn alloc_fd(&mut self, file: OpenFile) -> (fd: usize)
        ensures
            fd == first_free(old(self)@),
            fd <= old(self)@.len(),
            final(self)@ == if fd < old(self)@.len() { old(self)@.update(fd as int, Some(file)) } else { old(self)@.push(Some(file)) },
    {
        let mut i: usize = 0;
        while i < self.files.len()
            invariant
                i <= self.files@.len(),
                self.files@ == old(self)@,
                forall|j: int| 0 <= j < i ==> self.files@[j] is Some,
            decreases self.files@.len() - i,
        {
            if self.files[i].is_none() {
                proof {
                    let s = old(self)@;
                    assert(s[i as int] is None);
                    let c = first_free(s);
                    assert(0 <= c < s.len() && s[c] is None && forall|j: int| 0 <= j < c ==> s[j] is Some);
                    if c < i {
                        assert(s[c] is Some);
                    } else if c > i {
                        assert(s[i as int] is Some);
                    }
                }
                self.files.set(i, Some(file));
                return i;
            }
            i = i + 1;
        }
        let i = self.files.len();
        self.files.push(Some(file));
        i
    }

    /// The description behind `fd`, to read or change it in place.
    pub fn get(&mut self, fd: usize) -> (r: Option<&mut OpenFile>)
        ensures
            r is Some <==> old(self).get_spec(fd as int) is Some,
            r is Some ==> {
                &&& *r->0 == old(self).get_spec(fd as int)->0
                &&& final(self)@ == old(self)@.update(fd as int, Some(*final(r->0)))
            },
            r is None ==> *final(self) == *old(self),
    {
        if fd < self.files.len() && self.files[fd].is_some() {
            match &mut self.files[fd] {
                Some(f) => Some(f),
                None => None,
            }
        } else {
            None
        }
    }

    /// A copy of the description behind `fd`.
    pub fn lookup(&self, fd: usize) -> (r: Option<OpenFile>)
        ensures
            r == self.get_spec(fd as int),
    {
        if fd < self.files.len() {
            self.files[fd]
        } else {
            None
        }
    }

    /// Frees `fd`'s slot, if the table has one.
    pub fn close(&mut self, fd: usize)
        ensures
            final(self)@ == if fd < old(self)@.len() { old(self)@.update(fd as int, None) } else { old(self)@ },
    {
        if fd < self.files.len() {
            self.files.set(fd, None);
        }
    }

    /// Makes `newfd` refer to what `oldfd` refers to, growing the table as
    /// needed; false (and no change) when `oldfd` is not open.
    pub fn dup2(&mut self, oldfd: usize, newfd: usize) -> (ok: bool)
        requires
            old(self).get_spec(oldfd as int) is Some ==> newfd < usize::MAX,
        ensures
            ok == (old(self).get_spec(oldfd as int) is Some),
            !ok ==> *final(self) == *old(self),
            ok ==> {
                let n = if newfd < old(self)@.len() { old(self)@.len() as int } else { newfd + 1 };
                &&& final(self)@.len() == n
                &&& final(self)@[newfd as int] == old(self)@[oldfd as int]
                &&& forall|i: int| 0 <= i < n && i != newfd ==> #[trigger] final(self)@[i]
                    == if i < old(self)@.len() { old(self)@[i] } else { None }
            },
    {
        if oldfd >= self.files.len() || self.files[oldfd].is_none() {
            return false;
        }
        if newfd >= self.files.len() {
            let ghost s0 = self.files@;
            while self.files.len() < newfd + 1
                invariant
                    newfd < usize::MAX,
                    self.files@.len() <= newfd + 1,
                    s0.len() <= self.files@.len(),
                    forall|i: int| 0 <= i < s0.len() ==> self.files@[i] == s0[i],
                    forall|i: int| s0.len() <= i < self.files@.len() ==> self.files@[i] is None,
                decreases newfd + 1 - self.files@.len(),
            {
                self.files.push(None);
            }
        }
        let f = self.files[oldfd];
        self.files.set(newfd, f);
        true
    }

    /// The number of slots.
    pub fn len(&self) -> (n: usize)
        ensures
            n == self@.len(),
    {
        self.files.len()
    }
}

/// Law: a descriptor that `alloc_fd` hands out is free beforehand, and every
/// descriptor below it is in use.
pub proof fn law_alloc_lowest_free(t: Seq<Option<OpenFile>>)
    ensures
        0 <= first_free(t) <= t.len(),
        first_free(t) < t.len() ==> t[first_free(t)] is None,
        forall|j: int| 0 <= j < first_free(t) ==> t[j] is Some,
{
    if exists|i: int| 0 <= i < t.len() && t[i] is None {
        let k = choose|i: int| 0 <= i < t.len() && t[i] is None;
        lemma_lowest_none(t, k);
    }
}

proof fn lemma_lowest_none(t: Seq<Option<OpenFile>>, k: int)
    requires
        0 <= k < t.len(),
        t[k] is None,
    ensures
        exists|i: int| 0 <= i < t.len() && t[i] is None && forall|j: int| 0 <= j < i ==> t[j] is Some,
    decreases k,
{
    if exists|j: int| 0 <= j < k && t[j] is None {
        let j = choose|j: int| 0 <= j < k && t[j] is None;
        lemma_lowest_none(t, j);
    } else {
        assert(forall|j: int| 0 <= j < k ==> t[j] is Some);
    }
}

} // verus!
