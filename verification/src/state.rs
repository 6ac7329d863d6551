//! The per-process state table: file-descriptor tables, working
//! directories, parent linkage, and the transition applied for each parsed
//! syscall record.

use vstd::prelude::*;
use crate::bytes::{byte_views, eq_bytes, parse_dec, spec_parse_dec};
use crate::parser::{spec_unquote, unquote};
use vstd::slice::{slice_subrange, slice_to_vec};

verus! {

/// The syscalls the engine interprets; everything else is recognized but
/// ignored.
#[derive(PartialEq, Eq, Structural, Clone, Copy, Debug)]
pub enum Sys {
    Open,
    OpenAt,
    Read,
    Write,
    Rename,
    Unlink,
    CloneFork,
    Close,
    Chdir,
    Execve,
    Other,
}

/// Classification of a syscall name (the fixed table of known syscalls).
pub open spec fn spec_sys_of(name: Seq<u8>) -> Sys {
    if name == seq![111u8, 112, 101, 110] {
        Sys::Open
    } else if name == seq![111u8, 112, 101, 110, 97, 116] {
        Sys::OpenAt
    } else if name == seq![114u8, 101, 97, 100] {
        Sys::Read
    } else if name == seq![119u8, 114, 105, 116, 101] {
        Sys::Write
    } else if name == seq![114u8, 101, 110, 97, 109, 101] {
        Sys::Rename
    } else if name == seq![117u8, 110, 108, 105, 110, 107] {
        Sys::Unlink
    } else if name == seq![99u8, 108, 111, 110, 101] || name == seq![102u8, 111, 114, 107] || name
        == seq![118u8, 102, 111, 114, 107] {
        Sys::CloneFork
    } else if name == seq![99u8, 108, 111, 115, 101] {
        Sys::Close
    } else if name == seq![99u8, 104, 100, 105, 114] {
        Sys::Chdir
    } else if name == seq![101u8, 120, 101, 99, 118, 101] {
        Sys::Execve
    } else {
        Sys::Other
    }
}

pub fn sys_of(name: &[u8]) -> (s: Sys)
    ensures
        s == spec_sys_of(name@),
{
    let l_open: [u8; 4] = [111, 112, 101, 110];
    let l_openat: [u8; 6] = [111, 112, 101, 110, 97, 116];
    let l_read: [u8; 4] = [114, 101, 97, 100];
    let l_write: [u8; 5] = [119, 114, 105, 116, 101];
    let l_rename: [u8; 6] = [114, 101, 110, 97, 109, 101];
    let l_unlink: [u8; 6] = [117, 110, 108, 105, 110, 107];
    let l_clone: [u8; 5] = [99, 108, 111, 110, 101];
    let l_fork: [u8; 4] = [102, 111, 114, 107];
    let l_vfork: [u8; 5] = [118, 102, 111, 114, 107];
    let l_close: [u8; 5] = [99, 108, 111, 115, 101];
    let l_chdir: [u8; 5] = [99, 104, 100, 105, 114];
    let l_execve: [u8; 6] = [101, 120, 101, 99, 118, 101];
    proof {
        assert(l_open@ =~= seq![111u8, 112, 101, 110]);
        assert(l_openat@ =~= seq![111u8, 112, 101, 110, 97, 116]);
        assert(l_read@ =~= seq![114u8, 101, 97, 100]);
        assert(l_write@ =~= seq![119u8, 114, 105, 116, 101]);
        assert(l_rename@ =~= seq![114u8, 101, 110, 97, 109, 101]);
        assert(l_unlink@ =~= seq![117u8, 110, 108, 105, 110, 107]);
        assert(l_clone@ =~= seq![99u8, 108, 111, 110, 101]);
        assert(l_fork@ =~= seq![102u8, 111, 114, 107]);
        assert(l_vfork@ =~= seq![118u8, 102, 111, 114, 107]);
        assert(l_close@ =~= seq![99u8, 108, 111, 115, 101]);
        assert(l_chdir@ =~= seq![99u8, 104, 100, 105, 114]);
        assert(l_execve@ =~= seq![101u8, 120, 101, 99, 118, 101]);
    }
    if eq_bytes(name, l_open.as_slice()) {
        Sys::Open
    } else if eq_bytes(name, l_openat.as_slice()) {
        Sys::OpenAt
    } else if eq_bytes(name, l_read.as_slice()) {
        Sys::Read
    } else if eq_bytes(name, l_write.as_slice()) {
        Sys::Write
    } else if eq_bytes(name, l_rename.as_slice()) {
        Sys::Rename
    } else if eq_bytes(name, l_unlink.as_slice()) {
        Sys::Unlink
    } else if eq_bytes(name, l_clone.as_slice()) || eq_bytes(name, l_fork.as_slice()) || eq_bytes(
        name,
        l_vfork.as_slice(),
    ) {
        Sys::CloneFork
    } else if eq_bytes(name, l_close.as_slice()) {
        Sys::Close
    } else if eq_bytes(name, l_chdir.as_slice()) {
        Sys::Chdir
    } else if eq_bytes(name, l_execve.as_slice()) {
        Sys::Execve
    } else {
        Sys::Other
    }
}

// ---------------------------------------------------------------------------
// Association sequences: fd -> path.
// ---------------------------------------------------------------------------

/// Abstract value of an fd table: an association sequence from descriptor to
/// absolute path, earlier entries shadowing later ones.
pub open spec fn fd_view(entries: Seq<(u64, Vec<u8>)>) -> Seq<(u64, Seq<u8>)> {
    entries.map_values(|p: (u64, Vec<u8>)| (p.0, p.1@))
}

pub open spec fn assoc_find(s: Seq<(u64, Seq<u8>)>, k: u64) -> Option<Seq<u8>>
    decreases s.len(),
{
    if s.len() == 0 {
        None
    } else if s[0].0 == k {
        Some(s[0].1)
    } else {
        assoc_find(s.drop_first(), k)
    }
}

pub open spec fn assoc_remove(s: Seq<(u64, Seq<u8>)>, k: u64) -> Seq<(u64, Seq<u8>)>
    decreases s.len(),
{
    if s.len() == 0 {
        s
    } else if s[0].0 == k {
        assoc_remove(s.drop_first(), k)
    } else {
        seq![s[0]].add(assoc_remove(s.drop_first(), k))
    }
}

/// Binding `k` to `v`: any previous binding is dropped.
pub open spec fn assoc_store(s: Seq<(u64, Seq<u8>)>, k: u64, v: Seq<u8>) -> Seq<(u64, Seq<u8>)> {
    assoc_remove(s, k).push((k, v))
}

/// Looking up a removed key fails; other keys are untouched.
pub proof fn lemma_assoc_remove_find(s: Seq<(u64, Seq<u8>)>, k: u64, q: u64)
    ensures
        assoc_find(assoc_remove(s, k), q) == if q == k {
            None::<Seq<u8>>
        } else {
            assoc_find(s, q)
        },
    decreases s.len(),
{
    if s.len() > 0 {
        lemma_assoc_remove_find(s.drop_first(), k, q);
        if s[0].0 != k {
            assert(seq![s[0]].add(assoc_remove(s.drop_first(), k)).drop_first() =~= assoc_remove(
                s.drop_first(),
                k,
            ));
        }
    }
}

/// Looking up in `s.push(p)` falls back on the pushed pair.
pub proof fn lemma_assoc_find_push(s: Seq<(u64, Seq<u8>)>, p: (u64, Seq<u8>), q: u64)
    ensures
        assoc_find(s.push(p), q) == match assoc_find(s, q) {
            Some(v) => Some(v),
            None => if p.0 == q {
                Some(p.1)
            } else {
                None
            },
        },
    decreases s.len(),
{
    if s.len() == 0 {
        assert(s.push(p)[0] == p);
        assert(s.push(p).drop_first() =~= Seq::<(u64, Seq<u8>)>::empty());
        assert(s.push(p).len() == 1);
        if p.0 == q {
            assert(assoc_find(s.push(p), q) == Some(p.1));
        } else {
            assert(assoc_find(Seq::<(u64, Seq<u8>)>::empty(), q) is None);
            assert(assoc_find(s.push(p), q) == assoc_find(s.push(p).drop_first(), q));
        }
    } else {
        assert(s.push(p)[0] == s[0]);
        assert(s.push(p).drop_first() =~= s.drop_first().push(p));
        lemma_assoc_find_push(s.drop_first(), p, q);
    }
}

/// After a store, the stored key maps to the stored value and every other
/// key is untouched.
pub proof fn lemma_assoc_store_find(s: Seq<(u64, Seq<u8>)>, k: u64, v: Seq<u8>, q: u64)
    ensures
        assoc_find(assoc_store(s, k, v), q) == if q == k {
            Some(v)
        } else {
            assoc_find(s, q)
        },
{
    lemma_assoc_remove_find(s, k, q);
    lemma_assoc_find_push(assoc_remove(s, k), (k, v), q);
}

fn assoc_get<'a>(entries: &'a [(u64, Vec<u8>)], k: u64) -> (r: Option<&'a Vec<u8>>)
    ensures
        match r {
            Some(v) => assoc_find(fd_view(entries@), k) == Some(v@),
            None => assoc_find(fd_view(entries@), k) is None,
        },
    decreases entries@.len(),
{
    if entries.len() == 0 {
        None
    } else if entries[0].0 == k {
        Some(&entries[0].1)
    } else {
        let rest = slice_subrange(entries, 1, entries.len());
        proof {
            assert(fd_view(rest@) =~= fd_view(entries@).drop_first());
        }
        assoc_get(rest, k)
    }
}

fn assoc_del(entries: &[(u64, Vec<u8>)], k: u64) -> (r: Vec<(u64, Vec<u8>)>)
    ensures
        fd_view(r@) == assoc_remove(fd_view(entries@), k),
    decreases entries@.len(),
{
    if entries.len() == 0 {
        let r: Vec<(u64, Vec<u8>)> = Vec::new();
        proof {
            assert(fd_view(r@) =~= assoc_remove(fd_view(entries@), k));
        }
        r
    } else {
        let rest = slice_subrange(entries, 1, entries.len());
        proof {
            assert(fd_view(rest@) =~= fd_view(entries@).drop_first());
        }
        let mut tail = assoc_del(rest, k);
        if entries[0].0 == k {
            tail
        } else {
            let key = entries[0].0;
            let val = slice_to_vec(entries[0].1.as_slice());
            tail.insert(0, (key, val));
            proof {
                assert(fd_view(tail@) =~= seq![fd_view(entries@)[0]].add(
                    assoc_remove(fd_view(entries@).drop_first(), k),
                ));
            }
            tail
        }
    }
}

fn assoc_copy(entries: &[(u64, Vec<u8>)]) -> (r: Vec<(u64, Vec<u8>)>)
    ensures
        fd_view(r@) == fd_view(entries@),
    decreases entries@.len(),
{
    if entries.len() == 0 {
        let r: Vec<(u64, Vec<u8>)> = Vec::new();
        proof {
            assert(fd_view(r@) =~= fd_view(entries@));
        }
        r
    } else {
        let rest = slice_subrange(entries, 1, entries.len());
        let mut tail = assoc_copy(rest);
        let key = entries[0].0;
        let val = slice_to_vec(entries[0].1.as_slice());
        tail.insert(0, (key, val));
        proof {
            assert(fd_view(rest@) =~= fd_view(entries@).drop_first());
            assert(fd_view(tail@) =~= seq![fd_view(entries@)[0]].add(
                fd_view(entries@).drop_first(),
            ));
            assert(seq![fd_view(entries@)[0]].add(fd_view(entries@).drop_first()) =~= fd_view(
                entries@,
            ));
        }
        tail
    }
}

/// A file-descriptor table: descriptor -> absolute path.
pub struct FdTable {
    pub entries: Vec<(u64, Vec<u8>)>,
}

impl View for FdTable {
    type V = Seq<(u64, Seq<u8>)>;

    open spec fn view(&self) -> Seq<(u64, Seq<u8>)> {
        fd_view(self.entries@)
    }
}

impl FdTable {
    pub fn new() -> (r: FdTable)
        ensures
            r@ == Seq::<(u64, Seq<u8>)>::empty(),
    {
        let r = FdTable { entries: Vec::new() };
        proof {
            assert(r@ =~= Seq::<(u64, Seq<u8>)>::empty());
        }
        r
    }

    /// The path bound to descriptor `k`, if any.
    pub fn get(&self, k: u64) -> (r: Option<&Vec<u8>>)
        ensures
            match r {
                Some(v) => assoc_find(self@, k) == Some(v@),
                None => assoc_find(self@, k) is None,
            },
    {
        assoc_get(self.entries.as_slice(), k)
    }

    /// Binds `k` to `path`, overwriting any earlier binding.
    pub fn set(&mut self, k: u64, path: Vec<u8>)
        ensures
            final(self)@ == assoc_store(old(self)@, k, path@),
    {
        let mut e = assoc_del(self.entries.as_slice(), k);
        e.push((k, path));
        self.entries = e;
        proof {
            assert(final(self)@ =~= assoc_store(old(self)@, k, path@));
        }
    }

    /// Drops the binding for `k`; absent descriptors are tolerated.
    pub fn del(&mut self, k: u64)
        ensures
            final(self)@ == assoc_remove(old(self)@, k),
    {
        self.entries = assoc_del(self.entries.as_slice(), k);
    }

    /// An independent copy: later mutation of either table never affects the
    /// other.
    pub fn copy(&self) -> (r: FdTable)
        ensures
            r@ == self@,
    {
        FdTable { entries: assoc_copy(self.entries.as_slice()) }
    }
}

/// The mathematical value of one process's context.
#[verifier::ext_equal]
pub struct CtxV {
    pub pid: u64,
    pub parent: Option<u64>,
    pub cwd: Option<Seq<u8>>,
    pub fds: Seq<(u64, Seq<u8>)>,
}

pub open spec fn opt_bytes(o: Option<Vec<u8>>) -> Option<Seq<u8>> {
    match o {
        Some(v) => Some(v@),
        None => None,
    }
}

/// One traced process: parent linkage, working directory and open
/// descriptors.
pub struct ProcessContext {
    pub pid: u64,
    pub parent: Option<u64>,
    pub cwd: Option<Vec<u8>>,
    pub fds: FdTable,
}

impl View for ProcessContext {
    type V = CtxV;

    open spec fn view(&self) -> CtxV {
        CtxV { pid: self.pid, parent: self.parent, cwd: opt_bytes(self.cwd), fds: self.fds@ }
    }
}

pub open spec fn tbl_view(s: Seq<ProcessContext>) -> Seq<CtxV> {
    s.map_values(|c: ProcessContext| c@)
}

pub open spec fn tbl_find(s: Seq<CtxV>, pid: u64) -> Option<CtxV>
    decreases s.len(),
{
    if s.len() == 0 {
        None
    } else if s[0].pid == pid {
        Some(s[0])
    } else {
        tbl_find(s.drop_first(), pid)
    }
}

pub open spec fn tbl_remove(s: Seq<CtxV>, pid: u64) -> Seq<CtxV>
    decreases s.len(),
{
    if s.len() == 0 {
        s
    } else if s[0].pid == pid {
        tbl_remove(s.drop_first(), pid)
    } else {
        seq![s[0]].add(tbl_remove(s.drop_first(), pid))
    }
}

/// Registering a context: any earlier context of the same process id is
/// dropped.
pub open spec fn tbl_store(s: Seq<CtxV>, c: CtxV) -> Seq<CtxV> {
    tbl_remove(s, c.pid).push(c)
}

pub proof fn lemma_tbl_remove_find(s: Seq<CtxV>, k: u64, q: u64)
    ensures
        tbl_find(tbl_remove(s, k), q) == if q == k {
            None::<CtxV>
        } else {
            tbl_find(s, q)
        },
    decreases s.len(),
{
    if s.len() > 0 {
        lemma_tbl_remove_find(s.drop_first(), k, q);
        if s[0].pid != k {
            assert(seq![s[0]].add(tbl_remove(s.drop_first(), k)).drop_first() =~= tbl_remove(
                s.drop_first(),
                k,
            ));
        }
    }
}

/// A context found under a process id carries that id.
pub proof fn lemma_tbl_find_pid(s: Seq<CtxV>, pid: u64)
    ensures
        tbl_find(s, pid) is Some ==> tbl_find(s, pid).unwrap().pid == pid,
    decreases s.len(),
{
    if s.len() > 0 && s[0].pid != pid {
        lemma_tbl_find_pid(s.drop_first(), pid);
    }
}

pub proof fn lemma_tbl_find_push(s: Seq<CtxV>, c: CtxV, q: u64)
    ensures
        tbl_find(s.push(c), q) == match tbl_find(s, q) {
            Some(x) => Some(x),
            None => if c.pid == q {
                Some(c)
            } else {
                None
            },
        },
    decreases s.len(),
{
    if s.len() == 0 {
        assert(s.push(c)[0] == c);
        assert(s.push(c).len() == 1);
        assert(s.push(c).drop_first() =~= Seq::<CtxV>::empty());
        if c.pid == q {
            assert(tbl_find(s.push(c), q) == Some(c));
        } else {
            assert(tbl_find(Seq::<CtxV>::empty(), q) is None);
            assert(tbl_find(s.push(c), q) == tbl_find(s.push(c).drop_first(), q));
        }
    } else {
        assert(s.push(c)[0] == s[0]);
        assert(s.push(c).drop_first() =~= s.drop_first().push(c));
        lemma_tbl_find_push(s.drop_first(), c, q);
    }
}

/// After a store, the stored process id maps to the stored context and every
/// other process id is untouched.
pub proof fn lemma_tbl_store_find(s: Seq<CtxV>, c: CtxV, q: u64)
    ensures
        tbl_find(tbl_store(s, c), q) == if q == c.pid {
            Some(c)
        } else {
            tbl_find(s, q)
        },
{
    lemma_tbl_remove_find(s, c.pid, q);
    lemma_tbl_find_push(tbl_remove(s, c.pid), c, q);
}

fn tbl_get<'a>(procs: &'a [ProcessContext], pid: u64) -> (r: Option<&'a ProcessContext>)
    ensures
        match r {
            Some(c) => tbl_find(tbl_view(procs@), pid) == Some(c@),
            None => tbl_find(tbl_view(procs@), pid) is None,
        },
    decreases procs@.len(),
{
    if procs.len() == 0 {
        None
    } else if procs[0].pid == pid {
        Some(&procs[0])
    } else {
        let rest = slice_subrange(procs, 1, procs.len());
        proof {
            assert(tbl_view(rest@) =~= tbl_view(procs@).drop_first());
        }
        tbl_get(rest, pid)
    }
}

pub fn opt_bytes_copy(o: &Option<Vec<u8>>) -> (r: Option<Vec<u8>>)
    ensures
        opt_bytes(r) == opt_bytes(*o),
{
    match o {
        Some(v) => Some(slice_to_vec(v.as_slice())),
        None => None,
    }
}

fn ctx_copy(c: &ProcessContext) -> (r: ProcessContext)
    ensures
        r@ == c@,
{
    let r = ProcessContext {
        pid: c.pid,
        parent: c.parent,
        cwd: opt_bytes_copy(&c.cwd),
        fds: c.fds.copy(),
    };
    proof {
        assert(r@ =~= c@);
    }
    r
}

fn tbl_del(procs: &[ProcessContext], pid: u64) -> (r: Vec<ProcessContext>)
    ensures
        tbl_view(r@) == tbl_remove(tbl_view(procs@), pid),
    decreases procs@.len(),
{
    if procs.len() == 0 {
        let r: Vec<ProcessContext> = Vec::new();
        proof {
            assert(tbl_view(r@) =~= tbl_remove(tbl_view(procs@), pid));
        }
        r
    } else {
        let rest = slice_subrange(procs, 1, procs.len());
        proof {
            assert(tbl_view(rest@) =~= tbl_view(procs@).drop_first());
        }
        let mut tail = tbl_del(rest, pid);
        if procs[0].pid == pid {
            tail
        } else {
            let head = ctx_copy(&procs[0]);
            tail.insert(0, head);
            proof {
                assert(tbl_view(tail@) =~= seq![tbl_view(procs@)[0]].add(
                    tbl_remove(tbl_view(procs@).drop_first(), pid),
                ));
            }
            tail
        }
    }
}

/// Resolution of a path argument against a base directory: absolute paths
/// stand as written; relative paths are joined to a known absolute base with
/// a `/`; anything else is unresolved and excluded from aggregation.
pub open spec fn spec_resolve(arg: Seq<u8>, base: Option<Seq<u8>>) -> Option<Seq<u8>> {
    if arg.len() > 0 && arg[0] == 47 {
        Some(arg)
    } else if arg.len() == 0 {
        None
    } else {
        match base {
            Some(c) => if c.len() > 0 && c[0] == 47 {
                Some(c.add(seq![47u8]).add(arg))
            } else {
                None
            },
            None => None,
        }
    }
}

pub fn resolve(arg: &[u8], base: &Option<Vec<u8>>) -> (r: Option<Vec<u8>>)
    ensures
        match r {
            Some(v) => spec_resolve(arg@, opt_bytes(*base)) == Some(v@),
            None => spec_resolve(arg@, opt_bytes(*base)) is None,
        },
{
    if arg.len() > 0 && arg[0] == 47 {
        Some(slice_to_vec(arg))
    } else if arg.len() == 0 {
        None
    } else {
        match base {
            Some(c) => {
                if c.len() > 0 && c.as_slice()[0] == 47 {
                    let mut v = slice_to_vec(c.as_slice());
                    v.push(47);
                    v.extend_from_slice(arg);
                    proof {
                        assert(v@ =~= c@.add(seq![47u8]).add(arg@));
                    }
                    Some(v)
                } else {
                    None
                }
            },
            None => None,
        }
    }
}

/// The base directory for an `openat` path argument: the working directory
/// for `AT_FDCWD`, else the path registered for the descriptor named by the
/// first argument.
pub open spec fn spec_openat_base(c: CtxV, arg0: Seq<u8>) -> Option<Seq<u8>> {
    if arg0 == seq![65u8, 84, 95, 70, 68, 67, 87, 68] {
        c.cwd
    } else {
        match spec_parse_dec(arg0) {
            Some(fd) => assoc_find(c.fds, fd),
            None => None,
        }
    }
}

pub fn openat_base(c: &ProcessContext, arg0: &[u8]) -> (r: Option<Vec<u8>>)
    ensures
        opt_bytes(r) == spec_openat_base(c@, arg0@),
{
    let at_fdcwd: [u8; 8] = [65, 84, 95, 70, 68, 67, 87, 68];
    proof {
        assert(at_fdcwd@ =~= seq![65u8, 84, 95, 70, 68, 67, 87, 68]);
    }
    if eq_bytes(arg0, at_fdcwd.as_slice()) {
        opt_bytes_copy(&c.cwd)
    } else {
        proof {
            assert(arg0@.subrange(0, arg0@.len() as int) =~= arg0@);
        }
        match parse_dec(arg0, 0, arg0.len()) {
            Some(fd) => match c.fds.get(fd) {
                Some(v) => Some(slice_to_vec(v.as_slice())),
                None => None,
            },
            None => None,
        }
    }
}

pub open spec fn ctx_default(pid: u64) -> CtxV {
    CtxV { pid, parent: None, cwd: None, fds: Seq::empty() }
}

/// The context of `pid`, materialized lazily: an unknown process id yields
/// an empty descriptor table and an unresolved working directory.
pub open spec fn ctx_of(t: Seq<CtxV>, pid: u64) -> CtxV {
    match tbl_find(t, pid) {
        Some(c) => c,
        None => ctx_default(pid),
    }
}

pub open spec fn ctx_with_fds(c: CtxV, fds: Seq<(u64, Seq<u8>)>) -> CtxV {
    CtxV { pid: c.pid, parent: c.parent, cwd: c.cwd, fds }
}

pub open spec fn ctx_with_cwd(c: CtxV, cwd: Option<Seq<u8>>) -> CtxV {
    CtxV { pid: c.pid, parent: c.parent, cwd, fds: c.fds }
}

/// The table transition for one completed call of process `pid`, and the
/// child process id discovered by a successful clone/fork, if any.
///
/// On a successful `open`/`openat` whose path resolves, the returned
/// descriptor is bound to the path; `close` drops a binding (absent
/// descriptors tolerated); `chdir` replaces the working directory with the
/// resolution of its argument; a successful clone/fork registers the child
/// with a copy of the parent's descriptor table and working directory,
/// unless a context for that id already exists. Every event materializes the
/// context of `pid`.
pub open spec fn spec_apply(t: Seq<CtxV>, pid: u64, name: Seq<u8>, args: Seq<Seq<u8>>, ret: int) -> (
    Seq<CtxV>,
    Option<u64>,
) {
    let c = ctx_of(t, pid);
    let sys = spec_sys_of(name);
    if sys == Sys::Open || sys == Sys::OpenAt {
        let pi: int = if sys == Sys::Open {
            0
        } else {
            1
        };
        if ret >= 0 && args.len() > pi {
            match spec_unquote(args[pi]) {
                Some(p) => {
                    let base = if sys == Sys::Open {
                        c.cwd
                    } else {
                        spec_openat_base(c, args[0])
                    };
                    match spec_resolve(p, base) {
                        Some(abs) => (
                            tbl_store(t, ctx_with_fds(c, assoc_store(c.fds, ret as u64, abs))),
                            None,
                        ),
                        None => (tbl_store(t, c), None),
                    }
                },
                None => (tbl_store(t, c), None),
            }
        } else {
            (tbl_store(t, c), None)
        }
    } else if sys == Sys::Close {
        if ret >= 0 && args.len() >= 1 {
            match spec_parse_dec(args[0]) {
                Some(fd) => (tbl_store(t, ctx_with_fds(c, assoc_remove(c.fds, fd))), None),
                None => (tbl_store(t, c), None),
            }
        } else {
            (tbl_store(t, c), None)
        }
    } else if sys == Sys::Chdir {
        if ret >= 0 && args.len() >= 1 {
            match spec_unquote(args[0]) {
                Some(p) => (tbl_store(t, ctx_with_cwd(c, spec_resolve(p, c.cwd))), None),
                None => (tbl_store(t, c), None),
            }
        } else {
            (tbl_store(t, c), None)
        }
    } else if sys == Sys::CloneFork {
        let base = tbl_store(t, c);
        if ret > 0 {
            let child = ret as u64;
            if tbl_find(base, child) is Some {
                (base, Some(child))
            } else {
                (
                    tbl_store(
                        base,
                        CtxV { pid: child, parent: Some(pid), cwd: c.cwd, fds: c.fds },
                    ),
                    Some(child),
                )
            }
        } else {
            (base, None)
        }
    } else {
        (tbl_store(t, c), None)
    }
}

/// The process state table: one context per observed process id.
pub struct ProcessTable {
    pub procs: Vec<ProcessContext>,
}

impl View for ProcessTable {
    type V = Seq<CtxV>;

    open spec fn view(&self) -> Seq<CtxV> {
        tbl_view(self.procs@)
    }
}

impl ProcessTable {
    pub fn new() -> (r: ProcessTable)
        ensures
            r@ == Seq::<CtxV>::empty(),
    {
        let r = ProcessTable { procs: Vec::new() };
        proof {
            assert(r@ =~= Seq::<CtxV>::empty());
        }
        r
    }

    fn store_ctx(&mut self, c: ProcessContext)
        ensures
            final(self)@ == tbl_store(old(self)@, c@),
    {
        let ghost gc = c@;
        let mut np = tbl_del(self.procs.as_slice(), c.pid);
        np.push(c);
        self.procs = np;
        proof {
            assert(final(self)@ =~= tbl_store(old(self)@, gc));
        }
    }

    /// The context of `pid`, if one has been observed.
    pub fn get(&self, pid: u64) -> (r: Option<&ProcessContext>)
        ensures
            match r {
                Some(c) => tbl_find(self@, pid) == Some(c@),
                None => tbl_find(self@, pid) is None,
            },
    {
        tbl_get(self.procs.as_slice(), pid)
    }

    /// Applies one completed call to the table; yields the child process id
    /// discovered by a successful clone/fork.
    pub fn apply(&mut self, pid: u64, name: &[u8], args: &Vec<Vec<u8>>, ret: i64) -> (child: Option<
        u64,
    >)
        ensures
            final(self)@ == spec_apply(old(self)@, pid, name@, byte_views(args@), ret as int).0,
            child == spec_apply(old(self)@, pid, name@, byte_views(args@), ret as int).1,
    {
        let sys = sys_of(name);
        let c: ProcessContext = match self.get(pid) {
            Some(cr) => ctx_copy(cr),
            None => ProcessContext { pid, parent: None, cwd: None, fds: FdTable::new() },
        };
        proof {
            assert(c@ =~= ctx_of(old(self)@, pid));
        }
        if sys == Sys::Open || sys == Sys::OpenAt {
            let pi: usize = if sys == Sys::Open {
                0
            } else {
                1
            };
            if ret >= 0 && args.len() > pi {
                proof {
                    assert(byte_views(args@)[pi as int] == args@[pi as int]@);
                    if pi == 1 {
                        assert(byte_views(args@)[0] == args@[0]@);
                    }
                }
                match unquote(args[pi].as_slice()) {
                    Some(p) => {
                        let base: Option<Vec<u8>> = if pi == 0 {
                            opt_bytes_copy(&c.cwd)
                        } else {
                            openat_base(&c, args[0].as_slice())
                        };
                        match resolve(p.as_slice(), &base) {
                            Some(abs) => {
                                let mut c2 = c;
                                c2.fds.set(ret as u64, abs);
                                self.store_ctx(c2);
                            },
                            None => self.store_ctx(c),
                        }
                    },
                    None => self.store_ctx(c),
                }
            } else {
                self.store_ctx(c);
            }
            None
        } else if sys == Sys::Close {
            if ret >= 0 && args.len() >= 1 {
                proof {
                    assert(byte_views(args@)[0] == args@[0]@);
                    assert(args@[0]@.subrange(0, args@[0]@.len() as int) =~= args@[0]@);
                }
                match parse_dec(args[0].as_slice(), 0, args[0].len()) {
                    Some(fd) => {
                        let mut c2 = c;
                        c2.fds.del(fd);
                        self.store_ctx(c2);
                    },
                    None => self.store_ctx(c),
                }
            } else {
                self.store_ctx(c);
            }
            None
        } else if sys == Sys::Chdir {
            if ret >= 0 && args.len() >= 1 {
                proof {
                    assert(byte_views(args@)[0] == args@[0]@);
                }
                match unquote(args[0].as_slice()) {
                    Some(p) => {
                        let cwd0 = opt_bytes_copy(&c.cwd);
                        let nw = resolve(p.as_slice(), &cwd0);
                        let mut c2 = c;
                        c2.cwd = nw;
                        self.store_ctx(c2);
                    },
                    None => self.store_ctx(c),
                }
            } else {
                self.store_ctx(c);
            }
            None
        } else if sys == Sys::CloneFork {
            let ccwd = opt_bytes_copy(&c.cwd);
            let cfds = c.fds.copy();
            self.store_ctx(c);
            if ret > 0 {
                let child = ret as u64;
                match self.get(child) {
                    Some(_) => Some(child),
                    None => {
                        let cc = ProcessContext {
                            pid: child,
                            parent: Some(pid),
                            cwd: ccwd,
                            fds: cfds,
                        };
                        proof {
                            assert(cc@ =~= CtxV {
                                pid: child,
                                parent: Some(pid),
                                cwd: ctx_of(old(self)@, pid).cwd,
                                fds: ctx_of(old(self)@, pid).fds,
                            });
                        }
                        self.store_ctx(cc);
                        Some(child)
                    },
                }
            } else {
                None
            }
        } else {
            self.store_ctx(c);
            None
        }
    }
}

/// Fork semantics: immediately after a fresh clone/fork event, the child's
/// descriptor table and working directory equal a snapshot of the parent's;
/// the parent's own context is not changed by the clone; and a later store
/// keyed to either process id leaves the other's context untouched.
pub proof fn lemma_fork_isolation(
    t: Seq<CtxV>,
    pid: u64,
    name: Seq<u8>,
    args: Seq<Seq<u8>>,
    ret: int,
    c2: CtxV,
)
    requires
        spec_sys_of(name) == Sys::CloneFork,
        0 < ret <= i64::MAX,
        ret as u64 != pid,
        tbl_find(t, ret as u64) is None,
    ensures
        ({
            let t1 = spec_apply(t, pid, name, args, ret).0;
            let child = ret as u64;
            tbl_find(t1, child) == Some(
                CtxV {
                    pid: child,
                    parent: Some(pid),
                    cwd: ctx_of(t, pid).cwd,
                    fds: ctx_of(t, pid).fds,
                },
            ) && tbl_find(t1, pid) == Some(ctx_of(t, pid)) && (c2.pid == child ==> tbl_find(
                tbl_store(t1, c2),
                pid,
            ) == tbl_find(t1, pid)) && (c2.pid == pid ==> tbl_find(tbl_store(t1, c2), child)
                == tbl_find(t1, child))
        }),
{
    let c = ctx_of(t, pid);
    let child = ret as u64;
    let base = tbl_store(t, c);
    lemma_tbl_find_pid(t, pid);
    assert(c.pid == pid);
    lemma_tbl_store_find(t, c, child);
    assert(tbl_find(base, child) is None);
    let cc = CtxV { pid: child, parent: Some(pid), cwd: c.cwd, fds: c.fds };
    let t1 = tbl_store(base, cc);
    assert(spec_apply(t, pid, name, args, ret).0 == t1);
    lemma_tbl_store_find(base, cc, child);
    lemma_tbl_store_find(base, cc, pid);
    lemma_tbl_store_find(t, c, pid);
    lemma_tbl_store_find(t1, c2, pid);
    lemma_tbl_store_find(t1, c2, child);
}

} // verus!
