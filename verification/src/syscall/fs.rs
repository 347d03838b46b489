//! File system calls: descriptor-table management and path handling.
//!
//! A process's descriptor table is a vector of optional open files. The
//! kernel objects behind the descriptors (inodes, pipes, user buffers) are
//! handled by the caller; this module decides which descriptor a call refers
//! to, how the table changes, and which file-system request follows.
use vstd::prelude::*;

verus! {

/// An open file as a descriptor table holds it: the identity of the shared
/// file object and whether it may be read and written through.
#[derive(Clone, Copy, Debug, PartialEq, Eq)]
pub struct FileDesc {
    /// Identity of the shared file object.
    pub file: usize,
    /// Whether the file may be read.
    pub readable: bool,
    /// Whether the file may be written.
    pub writable: bool,
    /// Whether the file is an inode of the file system (not a pipe or a
    /// standard stream).
    pub is_inode: bool,
}

/// `i` is the lowest free slot of table `t`.
pub open spec fn is_lowest_free(t: Seq<Option<FileDesc>>, i: int) -> bool {
    &&& 0 <= i < t.len()
    &&& t[i] is None
    &&& forall|j: int| 0 <= j < i ==> #[trigger] t[j] is Some
}

/// The descriptor that the next allocation in `t` returns: the lowest free
/// slot, or a new slot at the end when every slot is in use.
pub open spec fn lowest_free_fd(t: Seq<Option<FileDesc>>) -> int {
    if exists|i: int| is_lowest_free(t, i) {
        choose|i: int| is_lowest_free(t, i)
    } else {
        t.len() as int
    }
}

/// Table `t` after a descriptor has been allocated (still empty).
pub open spec fn after_alloc(t: Seq<Option<FileDesc>>) -> Seq<Option<FileDesc>> {
    if lowest_free_fd(t) < t.len() {
        t
    } else {
        t.push(None)
    }
}

/// Table `t` after `f` has been installed at a newly allocated descriptor.
pub open spec fn install(t: Seq<Option<FileDesc>>, f: FileDesc) -> Seq<Option<FileDesc>> {
    after_alloc(t).update(lowest_free_fd(t), Some(f))
}

/// `fd` names an open file of `t`.
pub open spec fn fd_open(t: Seq<Option<FileDesc>>, fd: usize) -> bool {
    fd < t.len() && t[fd as int] is Some
}

/// What a read on `fd` reaches: the open file, when it is readable.
pub open spec fn readable_file(t: Seq<Option<FileDesc>>, fd: usize) -> Option<FileDesc> {
    if fd_open(t, fd) && t[fd as int]->0.readable {
        t[fd as int]
    } else {
        None
    }
}

/// What a write on `fd` reaches: the open file, when it is writable.
pub open spec fn writable_file(t: Seq<Option<FileDesc>>, fd: usize) -> Option<FileDesc> {
    if fd_open(t, fd) && t[fd as int]->0.writable {
        t[fd as int]
    } else {
        None
    }
}

/// The lowest free slot is unique.
pub proof fn lemma_lowest_free_unique(t: Seq<Option<FileDesc>>, i: int, k: int)
    requires
        is_lowest_free(t, i),
        is_lowest_free(t, k),
    ensures
        i == k,
{
    if i < k {
        assert(t[i] is Some);
    } else if k < i {
        assert(t[k] is Some);
    }
}

/// The descriptor allocated in `t` lies within the table after allocation,
/// is free there, and every lower descriptor is in use.
pub proof fn lemma_lowest_free_fd(t: Seq<Option<FileDesc>>)
    ensures
        0 <= lowest_free_fd(t) <= t.len(),
        lowest_free_fd(t) < after_alloc(t).len(),
        after_alloc(t)[lowest_free_fd(t)] is None,
        forall|j: int| 0 <= j < lowest_free_fd(t) ==> #[trigger] t[j] is Some,
{
    if exists|i: int| is_lowest_free(t, i) {
        let i = choose|i: int| is_lowest_free(t, i);
        assert(is_lowest_free(t, i));
    } else {
        assert forall|j: int| 0 <= j < t.len() implies #[trigger] t[j] is Some by {
            if t[j] is None {
                lemma_exists_lowest_free(t, j);
            }
        }
    }
}

/// The descriptor the next allocation returns is `i` when `i` is the lowest
/// free slot, or when `i` is the table's length and every slot is in use.
pub proof fn lemma_lowest_free_fd_is(t: Seq<Option<FileDesc>>, i: int)
    requires
        is_lowest_free(t, i) || (i == t.len() && forall|j: int|
            0 <= j < t.len() ==> #[trigger] t[j] is Some),
    ensures
        lowest_free_fd(t) == i,
{
    lemma_lowest_free_fd(t);
    if is_lowest_free(t, i) {
        lemma_lowest_free_unique(t, i, lowest_free_fd(t));
    } else if lowest_free_fd(t) < t.len() {
        assert(t[lowest_free_fd(t)] is Some);
    }
}

/// A table with a free slot at `j` has a lowest free slot.
proof fn lemma_exists_lowest_free(t: Seq<Option<FileDesc>>, j: int)
    requires
        0 <= j < t.len(),
        t[j] is None,
    ensures
        exists|i: int| is_lowest_free(t, i),
    decreases j,
{
    if forall|k: int| 0 <= k < j ==> #[trigger] t[k] is Some {
        assert(is_lowest_free(t, j));
    } else {
        let k = choose|k: int| 0 <= k < j && !(#[trigger] t[k] is Some);
        lemma_exists_lowest_free(t, k);
    }
}

/// Installing a file at a new descriptor puts it there and leaves every
/// other descriptor as it was.
pub proof fn lemma_install_keeps_others(t: Seq<Option<FileDesc>>, f: FileDesc)
    ensures
        ({
            let fd = lowest_free_fd(t);
            let n = install(t, f);
            &&& 0 <= fd < n.len()
            &&& n[fd] == Some(f)
            &&& n.len() == if fd < t.len() { t.len() } else { t.len() + 1 }
            &&& forall|i: int| 0 <= i < t.len() && i != fd ==> #[trigger] n[i] == t[i]
        }),
{
    lemma_lowest_free_fd(t);
}

/// A read or write on the descriptor that `open` returned reaches the file
/// that was opened, as far as that file allows reading or writing.
pub proof fn lemma_open_then_access(t: Seq<Option<FileDesc>>, f: FileDesc)
    requires
        t.len() < usize::MAX,
    ensures
        readable_file(install(t, f), lowest_free_fd(t) as usize) == (if f.readable {
            Some(f)
        } else {
            None::<FileDesc>
        }),
        writable_file(install(t, f), lowest_free_fd(t) as usize) == (if f.writable {
            Some(f)
        } else {
            None::<FileDesc>
        }),
{
    lemma_lowest_free_fd(t);
}

/// After `close` on a descriptor, reads, writes and a second `close` on it
/// fail.
pub proof fn lemma_closed_fd_is_unusable(t: Seq<Option<FileDesc>>, fd: usize)
    requires
        fd_open(t, fd),
    ensures
        !fd_open(t.update(fd as int, None), fd),
        readable_file(t.update(fd as int, None), fd) is None,
        writable_file(t.update(fd as int, None), fd) is None,
{
}

/// After `close` on a descriptor, the next allocation returns that
/// descriptor or a lower one.
pub proof fn lemma_close_then_alloc_reuses(t: Seq<Option<FileDesc>>, fd: usize)
    requires
        fd_open(t, fd),
    ensures
        lowest_free_fd(t.update(fd as int, None)) <= fd,
{
    let n = t.update(fd as int, None);
    lemma_lowest_free_fd(n);
    if lowest_free_fd(n) > fd {
        assert(n[fd as int] is Some);
    }
}

/// `dup` makes the new descriptor refer to the same file as the old one,
/// which stays open.
pub proof fn lemma_dup_shares_file(t: Seq<Option<FileDesc>>, fd: usize)
    requires
        fd_open(t, fd),
    ensures
        ({
            let n = install(t, t[fd as int]->0);
            let new_fd = lowest_free_fd(t);
            &&& new_fd != fd
            &&& n[new_fd] == t[fd as int]
            &&& n[fd as int] == t[fd as int]
        }),
{
    lemma_lowest_free_fd(t);
    if lowest_free_fd(t) < fd {
    } else if lowest_free_fd(t) == fd {
        assert(after_alloc(t)[fd as int] is None);
    }
}

/// The two descriptors of a pipe are distinct and hold the read end and the
/// write end.
pub proof fn lemma_pipe_ends(t: Seq<Option<FileDesc>>, read_end: FileDesc, write_end: FileDesc)
    ensures
        ({
            let mid = install(t, read_end);
            let n = install(mid, write_end);
            let rfd = lowest_free_fd(t);
            let wfd = lowest_free_fd(mid);
            &&& rfd != wfd
            &&& n[rfd] == Some(read_end)
            &&& n[wfd] == Some(write_end)
        }),
{
    let mid = install(t, read_end);
    lemma_install_keeps_others(t, read_end);
    lemma_install_keeps_others(mid, write_end);
    lemma_lowest_free_fd(mid);
}

/// A read, a write or `fstat` looks only at the slot it names: `fd` is open
/// exactly when it lies within the table and its slot holds a file, and a
/// read (write) on it reaches that file exactly when the file is readable
/// (writable), whatever the other slots hold.
pub proof fn lemma_access_looks_at_slot(t: Seq<Option<FileDesc>>, fd: usize)
    ensures
        fd_open(t, fd) <==> (fd < t.len() && t[fd as int] is Some),
        (fd < t.len() && t[fd as int] is Some && t[fd as int]->0.readable) ==> readable_file(t, fd)
            == t[fd as int],
        !(fd < t.len() && t[fd as int] is Some && t[fd as int]->0.readable) ==> readable_file(
            t,
            fd,
        ) is None,
        (fd < t.len() && t[fd as int] is Some && t[fd as int]->0.writable) ==> writable_file(t, fd)
            == t[fd as int],
        !(fd < t.len() && t[fd as int] is Some && t[fd as int]->0.writable) ==> writable_file(
            t,
            fd,
        ) is None,
{
}

/// Allocation picks the lowest free slot: every lower slot is in use, the
/// slot picked is free when it lies within the table, and otherwise it is a
/// new slot at the end; the table's slots stay as they were.
pub proof fn lemma_alloc_picks_lowest_free(t: Seq<Option<FileDesc>>)
    ensures
        0 <= lowest_free_fd(t) <= t.len(),
        forall|j: int| 0 <= j < lowest_free_fd(t) ==> #[trigger] t[j] is Some,
        lowest_free_fd(t) < t.len() ==> t[lowest_free_fd(t)] is None,
        lowest_free_fd(t) < t.len() ==> after_alloc(t) == t,
        lowest_free_fd(t) == t.len() ==> after_alloc(t) == t.push(None),
        forall|f: FileDesc| #[trigger] install(t, f) == after_alloc(t).update(lowest_free_fd(t), Some(f)),
{
    lemma_lowest_free_fd(t);
}

/// Allocates a descriptor: the lowest free slot, or a new empty slot at the
/// end of the table when none is free. The table's contents stay the same.
pub fn alloc_fd(fd_table: &mut Vec<Option<FileDesc>>) -> (fd: usize)
    requires
        old(fd_table).len() < usize::MAX,
    ensures
        fd == lowest_free_fd(old(fd_table)@),
        final(fd_table)@ == after_alloc(old(fd_table)@),
{
    let len = fd_table.len();
    let mut i: usize = 0;
    while i < len
        invariant
            len == fd_table.len(),
            fd_table@ == old(fd_table)@,
            i <= len,
            forall|j: int| 0 <= j < i ==> #[trigger] fd_table@[j] is Some,
        decreases len - i,
    {
        if fd_table[i].is_none() {
            proof {
                assert(is_lowest_free(fd_table@, i as int));
                lemma_lowest_free_unique(fd_table@, i as int, lowest_free_fd(fd_table@));
            }
            return i;
        }
        i = i + 1;
    }
    proof {
        assert(!exists|k: int| is_lowest_free(fd_table@, k));
    }
    fd_table.push(None);
    len
}

/// Installs `file` at a newly allocated descriptor and returns it.
fn install_file(fd_table: &mut Vec<Option<FileDesc>>, file: FileDesc) -> (fd: usize)
    requires
        old(fd_table).len() < usize::MAX,
    ensures
        fd == lowest_free_fd(old(fd_table)@),
        final(fd_table)@ == install(old(fd_table)@, file),
{
    let fd = alloc_fd(fd_table);
    proof {
        lemma_lowest_free_fd(old(fd_table)@);
    }
    fd_table.set(fd, Some(file));
    fd
}

/// The `write` system call on descriptor `fd`: returns the file to write to,
/// or `None` when the call fails with -1 (no such descriptor, or the file is
/// not writable).
pub fn sys_write(fd_table: &Vec<Option<FileDesc>>, fd: usize) -> (file: Option<FileDesc>)
    ensures
        file == writable_file(fd_table@, fd),
{
    if fd >= fd_table.len() {
        return None;
    }
    match fd_table[fd] {
        Some(file) => {
            if !file.writable {
                return None;
            }
            Some(file)
        },
        None => None,
    }
}

/// The `read` system call on descriptor `fd`: returns the file to read from,
/// or `None` when the call fails with -1 (no such descriptor, or the file is
/// not readable).
pub fn sys_read(fd_table: &Vec<Option<FileDesc>>, fd: usize) -> (file: Option<FileDesc>)
    ensures
        file == readable_file(fd_table@, fd),
{
    if fd >= fd_table.len() {
        return None;
    }
    match fd_table[fd] {
        Some(file) => {
            if !file.readable {
                return None;
            }
            Some(file)
        },
        None => None,
    }
}

/// The value a read or write call returns for `transferred` bytes.
pub fn transfer_result(transferred: usize) -> (r: isize)
    ensures
        r == transferred as isize,
{
    transferred as isize
}

/// The `open` system call, given the file that the file system opened (or
/// `None` when it could not): installs it at a new descriptor and returns
/// that descriptor, or returns -1 and leaves the table alone.
pub fn sys_open(fd_table: &mut Vec<Option<FileDesc>>, opened: Option<FileDesc>) -> (r: isize)
    requires
        old(fd_table).len() < isize::MAX,
    ensures
        match opened {
            Some(f) => {
                &&& r == lowest_free_fd(old(fd_table)@)
                &&& final(fd_table)@ == install(old(fd_table)@, f)
            },
            None => {
                &&& r == -1
                &&& final(fd_table)@ == old(fd_table)@
            },
        },
{
    match opened {
        Some(inode) => {
            let fd = install_file(fd_table, inode);
            proof {
                lemma_lowest_free_fd(old(fd_table)@);
            }
            fd as isize
        },
        None => -1,
    }
}

/// The `close` system call: frees descriptor `fd` and returns 0, or returns
/// -1 when `fd` names no open file.
pub fn sys_close(fd_table: &mut Vec<Option<FileDesc>>, fd: usize) -> (r: isize)
    ensures
        fd_open(old(fd_table)@, fd) ==> r == 0 && final(fd_table)@ == old(fd_table)@.update(
            fd as int,
            None,
        ),
        !fd_open(old(fd_table)@, fd) ==> r == -1 && final(fd_table)@ == old(fd_table)@,
{
    if fd >= fd_table.len() {
        return -1;
    }
    if fd_table[fd].is_none() {
        return -1;
    }
    fd_table.set(fd, None);
    0
}

/// The `dup` system call: installs the file of `fd` at a new descriptor too
/// and returns the new descriptor, or returns -1 when `fd` names no open
/// file.
pub fn sys_dup(fd_table: &mut Vec<Option<FileDesc>>, fd: usize) -> (r: isize)
    requires
        old(fd_table).len() < isize::MAX,
    ensures
        fd_open(old(fd_table)@, fd) ==> {
            &&& r == lowest_free_fd(old(fd_table)@)
            &&& final(fd_table)@ == install(old(fd_table)@, old(fd_table)@[fd as int]->0)
        },
        !fd_open(old(fd_table)@, fd) ==> r == -1 && final(fd_table)@ == old(fd_table)@,
{
    if fd >= fd_table.len() {
        return -1;
    }
    match fd_table[fd] {
        Some(file) => {
            let new_fd = install_file(fd_table, file);
            proof {
                lemma_lowest_free_fd(old(fd_table)@);
            }
            new_fd as isize
        },
        None => -1,
    }
}

/// The `pipe` system call, given the two ends of a new pipe: installs the
/// read end, then the write end, each at a newly allocated descriptor, and
/// returns the two descriptors (read end first).
pub fn sys_pipe(fd_table: &mut Vec<Option<FileDesc>>, read_end: FileDesc, write_end: FileDesc) -> (r: (
    usize,
    usize,
))
    requires
        old(fd_table).len() + 1 < usize::MAX,
    ensures
        r.0 == lowest_free_fd(old(fd_table)@),
        r.1 == lowest_free_fd(install(old(fd_table)@, read_end)),
        final(fd_table)@ == install(install(old(fd_table)@, read_end), write_end),
{
    proof {
        lemma_lowest_free_fd(old(fd_table)@);
    }
    let read_fd = install_file(fd_table, read_end);
    let write_fd = install_file(fd_table, write_end);
    (read_fd, write_fd)
}

/// The `fstat` system call's check on `fd`: returns the open file whose
/// status is asked for, or `None` when the call fails with -1. Only inodes
/// have a status.
pub fn sys_fstat(fd_table: &Vec<Option<FileDesc>>, fd: usize) -> (file: Option<FileDesc>)
    requires
        fd_open(fd_table@, fd) ==> fd_table@[fd as int]->0.is_inode,
    ensures
        file == (if fd_open(fd_table@, fd) {
            fd_table@[fd as int]
        } else {
            None::<FileDesc>
        }),
{
    if fd >= fd_table.len() {
        return None;
    }
    fd_table[fd]
}

/// The path separator.
pub const SLASH: u8 = 47u8;

/// `k` is the position of the last separator in path `p`.
pub open spec fn is_last_slash(p: Seq<u8>, k: int) -> bool {
    &&& 0 <= k < p.len()
    &&& p[k] == SLASH
    &&& forall|j: int| k < j < p.len() ==> #[trigger] p[j] != SLASH
}

/// Position of the last separator in `p`, or -1 when `p` has none.
pub open spec fn last_slash(p: Seq<u8>) -> int {
    if exists|k: int| is_last_slash(p, k) {
        choose|k: int| is_last_slash(p, k)
    } else {
        -1
    }
}

/// The directory part of `p`: everything before its last separator, or
/// nothing when it has none.
pub open spec fn dir_part(p: Seq<u8>) -> Seq<u8> {
    if last_slash(p) < 0 {
        Seq::empty()
    } else {
        p.subrange(0, last_slash(p))
    }
}

/// The name part of `p`: everything after its last separator, or all of `p`
/// when it has none.
pub open spec fn name_part(p: Seq<u8>) -> Seq<u8> {
    if last_slash(p) < 0 {
        p
    } else {
        p.subrange(last_slash(p) + 1, p.len() as int)
    }
}

proof fn lemma_last_slash_unique(p: Seq<u8>, i: int, k: int)
    requires
        is_last_slash(p, i),
        is_last_slash(p, k),
    ensures
        i == k,
{
    if i < k {
        assert(p[k] != SLASH);
    } else if k < i {
        assert(p[i] != SLASH);
    }
}

/// Splitting a path loses nothing: the name part holds no separator, and
/// when the path has a separator it is the directory part, the separator and
/// the name part in a row; otherwise it is the name part alone.
pub proof fn lemma_split_rejoins(p: Seq<u8>)
    ensures
        forall|j: int| 0 <= j < name_part(p).len() ==> #[trigger] name_part(p)[j] != SLASH,
        last_slash(p) >= 0 ==> p =~= dir_part(p).push(SLASH) + name_part(p),
        last_slash(p) < 0 ==> name_part(p) == p,
{
    if exists|k: int| is_last_slash(p, k) {
        let k = choose|k: int| is_last_slash(p, k);
        assert(is_last_slash(p, k));
        assert forall|j: int| 0 <= j < name_part(p).len() implies #[trigger] name_part(p)[j]
            != SLASH by {
            assert(p[k + 1 + j] != SLASH);
        }
    } else {
        assert forall|j: int| 0 <= j < p.len() implies #[trigger] p[j] != SLASH by {
            if p[j] == SLASH {
                lemma_exists_last_slash(p, j);
            }
        }
    }
}

/// A path with a separator at `j` has a last separator.
proof fn lemma_exists_last_slash(p: Seq<u8>, j: int)
    requires
        0 <= j < p.len(),
        p[j] == SLASH,
    ensures
        exists|k: int| is_last_slash(p, k),
    decreases p.len() - j,
{
    if forall|k: int| j < k < p.len() ==> #[trigger] p[k] != SLASH {
        assert(is_last_slash(p, j));
    } else {
        let k = choose|k: int| j < k < p.len() && !(#[trigger] p[k] != SLASH);
        lemma_exists_last_slash(p, k);
    }
}

/// Where a file-system entry named by a path lives: the directory to open
/// (`None` for the root directory, which is used when the directory part is
/// empty) and the entry's name within it.
pub struct EntryLocation {
    /// Directory path to open, or `None` for the root directory.
    pub dir: Option<Vec<u8>>,
    /// Name of the entry within that directory.
    pub name: Vec<u8>,
}

/// `loc` is where path `p` points.
pub open spec fn locates(loc: EntryLocation, p: Seq<u8>) -> bool {
    &&& loc.name@ == name_part(p)
    &&& (loc.dir is None <==> dir_part(p).len() == 0)
    &&& (loc.dir matches Some(d) ==> d@ == dir_part(p))
}

/// Where a path points: a path without a separator names an entry of the
/// root directory by the whole path; otherwise the name is what follows the
/// last separator, and the directory is what precedes it, or the root
/// directory when nothing precedes it (as in "/a"). For "/a/b" the
/// directory is "/a".
pub proof fn lemma_locates_meaning(loc: EntryLocation, p: Seq<u8>)
    requires
        locates(loc, p),
    ensures
        (forall|j: int| 0 <= j < p.len() ==> #[trigger] p[j] != SLASH) ==> loc.dir is None
            && loc.name@ == p,
        forall|k: int|
            0 <= k < p.len() && #[trigger] p[k] == SLASH && (forall|j: int|
                k < j < p.len() ==> #[trigger] p[j] != SLASH) ==> {
                &&& loc.name@ == p.subrange(k + 1, p.len() as int)
                &&& k == 0 ==> loc.dir is None
                &&& k > 0 ==> loc.dir is Some && loc.dir->0@ == p.subrange(0, k)
            },
{
    if forall|j: int| 0 <= j < p.len() ==> #[trigger] p[j] != SLASH {
        assert(!exists|k: int| is_last_slash(p, k));
    }
    assert forall|k: int|
        0 <= k < p.len() && #[trigger] p[k] == SLASH && (forall|j: int|
            k < j < p.len() ==> #[trigger] p[j] != SLASH) implies {
        &&& loc.name@ == p.subrange(k + 1, p.len() as int)
        &&& k == 0 ==> loc.dir is None
        &&& k > 0 ==> loc.dir is Some && loc.dir->0@ == p.subrange(0, k)
    } by {
        assert(is_last_slash(p, k));
        lemma_last_slash_unique(p, k, last_slash(p));
    }
}

/// Copies `p[start..end]` into a new vector.
fn copy_range(p: &[u8], start: usize, end: usize) -> (r: Vec<u8>)
    requires
        start <= end <= p@.len(),
    ensures
        r@ == p@.subrange(start as int, end as int),
{
    let mut r: Vec<u8> = Vec::new();
    let mut i = start;
    while i < end
        invariant
            start <= i <= end <= p@.len(),
            r@ == p@.subrange(start as int, i as int),
        decreases end - i,
    {
        r.push(p[i]);
        i = i + 1;
    }
    r
}

/// Splits a path at its last separator into directory and name.
pub fn locate_entry(path: &[u8]) -> (loc: EntryLocation)
    ensures
        locates(loc, path@),
{
    let len = path.len();
    let mut i = len;
    while i > 0
        invariant
            i <= len == path@.len(),
            forall|j: int| i <= j < len ==> #[trigger] path@[j] != SLASH,
        decreases i,
    {
        if path[i - 1] == SLASH {
            let k = i - 1;
            proof {
                assert(is_last_slash(path@, k as int));
                lemma_last_slash_unique(path@, k as int, last_slash(path@));
            }
            let dir = copy_range(path, 0, k);
            let name = copy_range(path, k + 1, len);
            if k == 0 {
                return EntryLocation { dir: None, name };
            } else {
                return EntryLocation { dir: Some(dir), name };
            }
        }
        i = i - 1;
    }
    proof {
        assert(!exists|k: int| is_last_slash(path@, k));
    }
    let name = copy_range(path, 0, len);
    proof {
        assert(name@ =~= path@);
    }
    EntryLocation { dir: None, name }
}

/// Whether two paths are the same byte string.
fn same_path(a: &[u8], b: &[u8]) -> (r: bool)
    ensures
        r == (a@ == b@),
{
    if a.len() != b.len() {
        return false;
    }
    let mut i: usize = 0;
    while i < a.len()
        invariant
            a@.len() == b@.len(),
            i <= a@.len(),
            forall|j: int| 0 <= j < i ==> a@[j] == b@[j],
        decreases a@.len() - i,
    {
        if a[i] != b[i] {
            return false;
        }
        i = i + 1;
    }
    proof {
        assert(a@ =~= b@);
    }
    true
}

/// The `linkat` system call's path logic: fails (`None`) when the two paths
/// are the same; otherwise says where the new link goes. The call's result
/// then follows from [`linkat_result`].
pub fn sys_linkat(old_path: &[u8], new_path: &[u8]) -> (r: Option<EntryLocation>)
    ensures
        r is None <==> old_path@ == new_path@,
        r matches Some(loc) ==> locates(loc, new_path@),
{
    if same_path(old_path, new_path) {
        return None;
    }
    Some(locate_entry(new_path))
}

/// The result of the `linkat` system call, given where the link goes (as
/// [`sys_linkat`] found it), whether the old path names an existing file,
/// and whether the link's directory could be opened (looked at only when the
/// link does not go to the root directory). The link is made exactly when
/// the result is 0.
pub fn linkat_result(loc: &Option<EntryLocation>, old_exists: bool, dir_exists: bool) -> (r: isize)
    ensures
        r == (if loc is None || !old_exists || (loc->0.dir is Some && !dir_exists) {
            -1isize
        } else {
            0isize
        }),
{
    match loc {
        None => -1,
        Some(l) => {
            if !old_exists {
                return -1;
            }
            match &l.dir {
                Some(_) => {
                    if !dir_exists {
                        return -1;
                    }
                    0
                },
                None => 0,
            }
        },
    }
}

/// The `unlinkat` system call's path logic: says where the entry to remove
/// is. The call's result then follows from [`unlinkat_result`].
pub fn sys_unlinkat(path: &[u8]) -> (loc: EntryLocation)
    ensures
        locates(loc, path@),
{
    locate_entry(path)
}

/// The result of the `unlinkat` system call, given where the entry is (as
/// [`sys_unlinkat`] found it) and whether its directory could be opened
/// (looked at only when it is not the root directory). The entry is removed
/// exactly when the result is 0.
pub fn unlinkat_result(loc: &EntryLocation, dir_exists: bool) -> (r: isize)
    ensures
        r == (if loc.dir is Some && !dir_exists {
            -1isize
        } else {
            0isize
        }),
{
    match &loc.dir {
        Some(_) => {
            if dir_exists {
                0
            } else {
                -1
            }
        },
        None => 0,
    }
}

/// Flags `open` accepts: write-only (bit 0), read-write (bit 1), create
/// (bit 9) and truncate (bit 10); no bit means read-only.
pub const OPEN_FLAGS_ALL: u32 = 0x603;

/// The flags of an `open` call, or `None` when they hold an undefined bit
/// (the call is then refused with a panic).
pub fn open_flags_from_bits(flags: u32) -> (r: Option<u32>)
    ensures
        r == (if flags & !OPEN_FLAGS_ALL == 0 {
            Some(flags)
        } else {
            None::<u32>
        }),
{
    if flags & !OPEN_FLAGS_ALL == 0 {
        Some(flags)
    } else {
        None
    }
}

/// Mode of a regular file.
pub const STAT_MODE_FILE: u32 = 0o100000;

/// File status as `fstat` reports it.
#[derive(Clone, Copy, Debug, PartialEq, Eq)]
pub struct Stat {
    /// Device holding the file.
    pub dev: u64,
    /// Inode number.
    pub ino: u64,
    /// File type and mode.
    pub mode: u32,
    /// Number of hard links.
    pub nlink: u32,
    /// Padding.
    pub pad: [u64; 7],
}

/// The status `fstat` reports for an inode with number `ino` and `nlink`
/// links: device 0, a regular file, zero padding.
pub fn fstat_record(ino: u64, nlink: u32) -> (st: Stat)
    ensures
        st.dev == 0,
        st.ino == ino,
        st.mode == STAT_MODE_FILE,
        st.nlink == nlink,
        st.pad@ == Seq::new(7, |i: int| 0u64),
{
    let st = Stat { dev: 0, ino, mode: STAT_MODE_FILE, nlink, pad: [0u64; 7] };
    proof {
        assert(st.pad@ =~= Seq::new(7, |i: int| 0u64));
    }
    st
}

/// The `n` low bytes of `v`, least significant first.
pub open spec fn le_bytes(v: u64, n: nat) -> Seq<u8> {
    Seq::new(n, |i: int| ((v >> ((8 * i) as u64)) & 0xffu64) as u8)
}

/// The words of `ws`, each as eight bytes, least significant first.
pub open spec fn words_le(ws: Seq<u64>) -> Seq<u8>
    decreases ws.len(),
{
    if ws.len() == 0 {
        Seq::empty()
    } else {
        words_le(ws.drop_last()) + le_bytes(ws.last(), 8)
    }
}

/// The bytes of a status record as it lies in memory on the kernel's
/// little-endian target.
pub open spec fn stat_layout(st: Stat) -> Seq<u8> {
    le_bytes(st.dev, 8) + le_bytes(st.ino, 8) + le_bytes(st.mode as u64, 4) + le_bytes(
        st.nlink as u64,
        4,
    ) + words_le(st.pad@)
}

/// The bytes of `v` least significant first: byte `i` is digit `i` of `v`
/// in base 256, and fewer bytes are the first ones of the eight.
pub proof fn lemma_le_bytes_digits(v: u64, n: nat)
    requires
        n <= 8,
    ensures
        le_bytes(v, n).len() == n,
        le_bytes(v, n) == le_bytes(v, 8).take(n as int),
        le_bytes(v, 8)[0] as int == (v as int / 1) % 256,
        le_bytes(v, 8)[1] as int == (v as int / 256) % 256,
        le_bytes(v, 8)[2] as int == (v as int / 65536) % 256,
        le_bytes(v, 8)[3] as int == (v as int / 16777216) % 256,
        le_bytes(v, 8)[4] as int == (v as int / 4294967296) % 256,
        le_bytes(v, 8)[5] as int == (v as int / 1099511627776) % 256,
        le_bytes(v, 8)[6] as int == (v as int / 281474976710656) % 256,
        le_bytes(v, 8)[7] as int == (v as int / 72057594037927936) % 256,
{
    assert(le_bytes(v, n) =~= le_bytes(v, 8).take(n as int));
    assert(((v >> 0u64) & 0xffu64) == (v / 1u64) % 256u64) by (bit_vector);
    assert(le_bytes(v, 8)[0] == ((v >> 0u64) & 0xffu64) as u8);
    assert(((v >> 8u64) & 0xffu64) == (v / 256u64) % 256u64) by (bit_vector);
    assert(le_bytes(v, 8)[1] == ((v >> 8u64) & 0xffu64) as u8);
    assert(((v >> 16u64) & 0xffu64) == (v / 65536u64) % 256u64) by (bit_vector);
    assert(le_bytes(v, 8)[2] == ((v >> 16u64) & 0xffu64) as u8);
    assert(((v >> 24u64) & 0xffu64) == (v / 16777216u64) % 256u64) by (bit_vector);
    assert(le_bytes(v, 8)[3] == ((v >> 24u64) & 0xffu64) as u8);
    assert(((v >> 32u64) & 0xffu64) == (v / 4294967296u64) % 256u64) by (bit_vector);
    assert(le_bytes(v, 8)[4] == ((v >> 32u64) & 0xffu64) as u8);
    assert(((v >> 40u64) & 0xffu64) == (v / 1099511627776u64) % 256u64) by (bit_vector);
    assert(le_bytes(v, 8)[5] == ((v >> 40u64) & 0xffu64) as u8);
    assert(((v >> 48u64) & 0xffu64) == (v / 281474976710656u64) % 256u64) by (bit_vector);
    assert(le_bytes(v, 8)[6] == ((v >> 48u64) & 0xffu64) as u8);
    assert(((v >> 56u64) & 0xffu64) == (v / 72057594037927936u64) % 256u64) by (bit_vector);
    assert(le_bytes(v, 8)[7] == ((v >> 56u64) & 0xffu64) as u8);
}

/// The bytes of a sequence of words are the words' bytes one word after the
/// other.
pub proof fn lemma_words_le_positions(ws: Seq<u64>)
    ensures
        words_le(ws).len() == 8 * ws.len(),
        forall|w: int, i: int|
            0 <= w < ws.len() && 0 <= i < 8 ==> #[trigger] words_le(ws)[8 * w + i] == le_bytes(
                ws[w],
                8,
            )[i],
    decreases ws.len(),
{
    if ws.len() > 0 {
        let init = ws.drop_last();
        lemma_words_le_positions(init);
        assert forall|w: int, i: int|
            0 <= w < ws.len() && 0 <= i < 8 implies #[trigger] words_le(ws)[8 * w + i] == le_bytes(
            ws[w],
            8,
        )[i] by {
            if w < ws.len() - 1 {
                assert(words_le(init)[8 * w + i] == le_bytes(init[w], 8)[i]);
            }
        }
    }
}

/// Where the fields of a status record lie: the device at bytes 0 to 7, the
/// inode number at 8 to 15, the mode at 16 to 19, the link count at 20 to 23
/// and padding word `w` at `24 + 8 * w` to `31 + 8 * w`, each least
/// significant byte first.
pub proof fn lemma_stat_layout_fields(st: Stat)
    ensures
        stat_layout(st).len() == 80,
        forall|i: int| 0 <= i < 8 ==> #[trigger] stat_layout(st)[i] == le_bytes(st.dev, 8)[i],
        forall|i: int| 0 <= i < 8 ==> #[trigger] stat_layout(st)[8 + i] == le_bytes(st.ino, 8)[i],
        forall|i: int|
            0 <= i < 4 ==> #[trigger] stat_layout(st)[16 + i] == le_bytes(st.mode as u64, 8)[i],
        forall|i: int|
            0 <= i < 4 ==> #[trigger] stat_layout(st)[20 + i] == le_bytes(st.nlink as u64, 8)[i],
        forall|w: int, i: int|
            0 <= w < 7 && 0 <= i < 8 ==> #[trigger] stat_layout(st)[24 + 8 * w + i] == le_bytes(
                st.pad@[w],
                8,
            )[i],
{
    lemma_words_le_positions(st.pad@);
    lemma_le_bytes_digits(st.mode as u64, 4);
    lemma_le_bytes_digits(st.nlink as u64, 4);
    assert forall|w: int, i: int|
        0 <= w < 7 && 0 <= i < 8 implies #[trigger] stat_layout(st)[24 + 8 * w + i] == le_bytes(
        st.pad@[w],
        8,
    )[i] by {
        assert(words_le(st.pad@)[8 * w + i] == le_bytes(st.pad@[w], 8)[i]);
    }
}

/// Each piece starts where the one before it ended, and the lengths add up
/// one after the other.
pub proof fn lemma_total_len_steps(lens: Seq<usize>, i: int)
    requires
        0 <= i < lens.len(),
    ensures
        total_len(Seq::<usize>::empty()) == 0,
        total_len(lens.take(i + 1)) == total_len(lens.take(i)) + lens[i],
        total_len(lens.take(lens.len() as int)) == total_len(lens),
{
    assert(lens.take(i + 1).drop_last() =~= lens.take(i));
    assert(lens.take(lens.len() as int) =~= lens);
}

/// Appends the `n` low bytes of `v`, least significant first.
pub fn push_le(out: &mut Vec<u8>, v: u64, n: usize)
    requires
        n <= 8,
    ensures
        final(out)@ == old(out)@ + le_bytes(v, n as nat),
{
    let mut i: usize = 0;
    while i < n
        invariant
            i <= n <= 8,
            out@ == old(out)@ + le_bytes(v, i as nat),
        decreases n - i,
    {
        let shift: u64 = (8 * i) as u64;
        out.push(((v >> shift) & 0xffu64) as u8);
        proof {
            assert(le_bytes(v, (i + 1) as nat) =~= le_bytes(v, i as nat).push(
                ((v >> shift) & 0xffu64) as u8,
            ));
        }
        i = i + 1;
    }
}

/// The bytes of a status record as `fstat` copies them to the caller.
pub fn stat_bytes(st: &Stat) -> (bytes: Vec<u8>)
    ensures
        bytes@ == stat_layout(*st),
        bytes@.len() == 80,
{
    let mut bytes: Vec<u8> = Vec::new();
    push_le(&mut bytes, st.dev, 8);
    push_le(&mut bytes, st.ino, 8);
    push_le(&mut bytes, st.mode as u64, 4);
    push_le(&mut bytes, st.nlink as u64, 4);
    let ghost head = bytes@;
    let mut j: usize = 0;
    while j < 7
        invariant
            j <= 7,
            bytes@ == head + words_le(st.pad@.subrange(0, j as int)),
            bytes@.len() == 24 + 8 * j,
        decreases 7 - j,
    {
        push_le(&mut bytes, st.pad[j], 8);
        proof {
            let next = st.pad@.subrange(0, j + 1);
            assert(next.drop_last() =~= st.pad@.subrange(0, j as int));
            assert(next.last() == st.pad@[j as int]);
        }
        j = j + 1;
    }
    proof {
        assert(st.pad@.subrange(0, 7) =~= st.pad@);
        assert(bytes@ =~= stat_layout(*st));
    }
    bytes
}

/// Sum of the lengths in `lens`.
pub open spec fn total_len(lens: Seq<usize>) -> int
    decreases lens.len(),
{
    if lens.len() == 0 {
        0
    } else {
        total_len(lens.drop_last()) + lens.last()
    }
}

proof fn lemma_total_len_prefix(lens: Seq<usize>, i: int)
    requires
        0 <= i <= lens.len(),
    ensures
        0 <= total_len(lens.take(i)) <= total_len(lens),
    decreases lens.len(),
{
    if lens.len() > 0 {
        if i == lens.len() {
            assert(lens.take(i) =~= lens);
            lemma_total_len_prefix(lens.drop_last(), lens.len() - 1);
            assert(lens.drop_last().take(lens.len() - 1) =~= lens.drop_last());
        } else {
            lemma_total_len_prefix(lens.drop_last(), i);
            assert(lens.drop_last().take(i) =~= lens.take(i));
        }
    }
}

/// Cuts `bytes` into consecutive pieces of the lengths in `lens` (the
/// pieces of user memory the bytes are copied into, in order).
pub fn split_into_pieces(bytes: &[u8], lens: &[usize]) -> (pieces: Vec<Vec<u8>>)
    requires
        total_len(lens@) == bytes@.len(),
    ensures
        pieces@.len() == lens@.len(),
        forall|i: int|
            0 <= i < lens@.len() ==> (#[trigger] pieces@[i])@ == bytes@.subrange(
                total_len(lens@.take(i)),
                total_len(lens@.take(i)) + lens@[i],
            ),
{
    let mut pieces: Vec<Vec<u8>> = Vec::new();
    let mut pos: usize = 0;
    let mut i: usize = 0;
    while i < lens.len()
        invariant
            i <= lens@.len(),
            total_len(lens@) == bytes@.len(),
            pos == total_len(lens@.take(i as int)),
            pieces@.len() == i,
            forall|k: int|
                0 <= k < i ==> (#[trigger] pieces@[k])@ == bytes@.subrange(
                    total_len(lens@.take(k)),
                    total_len(lens@.take(k)) + lens@[k],
                ),
        decreases lens@.len() - i,
    {
        proof {
            let next = lens@.take(i + 1);
            assert(next.drop_last() =~= lens@.take(i as int));
            assert(next.last() == lens@[i as int]);
            assert(total_len(next) == pos + lens@[i as int]);
            lemma_total_len_prefix(lens@, i + 1);
            assert(bytes@.len() == bytes.len());
        }
        let end = pos + lens[i];
        let mut piece: Vec<u8> = Vec::new();
        let mut j = pos;
        while j < end
            invariant
                pos <= j <= end <= bytes@.len(),
                piece@ == bytes@.subrange(pos as int, j as int),
            decreases end - j,
        {
            piece.push(bytes[j]);
            j = j + 1;
        }
        pieces.push(piece);
        pos = end;
        i = i + 1;
    }
    pieces
}

} // verus!
