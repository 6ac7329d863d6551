//! The access classifier: maps one completed syscall and the owning
//! process's context to the file accesses it implies.
//!
//! Failed syscalls (negative return) never produce a record. A successful
//! `open`/`openat` with a write-related flag produces a write-open touch,
//! turned into `created` or `modified` by the aggregation layer depending on
//! whether the path was already in this run's view. `read`/`write` on a
//! known descriptor yield `accessed`/`modified` with the returned byte count
//! as size delta. `unlink` and the source of `rename` yield `deleted`; the
//! destination of `rename` is a write-open touch on the new name. A
//! successful `execve` yields `accessed` on the binary.
//!
//! Path arguments whose resolution fails are counted (the second component
//! of the result) and excluded from aggregation.

use vstd::prelude::*;
use crate::bytes::{byte_views, bytes_contain, contains_bytes, parse_dec, spec_parse_dec};
use crate::parser::{opt_int, spec_unquote, unquote};
use crate::state::{
    assoc_find, openat_base, resolve, spec_openat_base, spec_resolve, spec_sys_of, sys_of,
    CtxV, ProcessContext, Sys,
};
use vstd::slice::slice_to_vec;

verus! {

/// The raw touch a syscall implies, before pre-existence is known.
#[derive(PartialEq, Eq, Structural, Clone, Copy, Debug)]
pub enum Touch {
    Accessed,
    Modified,
    WriteOpen,
    Deleted,
}

/// One file touch produced by the classifier.
pub struct Pending {
    pub path: Vec<u8>,
    pub touch: Touch,
    pub delta: Option<u64>,
    pub ts: Option<u64>,
}

/// The mathematical value of a [`Pending`] touch.
#[verifier::ext_equal]
pub struct PendingV {
    pub path: Seq<u8>,
    pub touch: Touch,
    pub delta: Option<u64>,
    pub ts: Option<int>,
}

impl View for Pending {
    type V = PendingV;

    open spec fn view(&self) -> PendingV {
        PendingV { path: self.path@, touch: self.touch, delta: self.delta, ts: opt_int(self.ts) }
    }
}

pub open spec fn pend_views(s: Seq<Pending>) -> Seq<PendingV> {
    s.map_values(|p: Pending| p@)
}

/// A flags argument names a write-related open(2) flag.
pub open spec fn has_write_flags(flags: Seq<u8>) -> bool {
    contains_bytes(flags, seq![79u8, 95, 87, 82, 79, 78, 76, 89]) || contains_bytes(
        flags,
        seq![79u8, 95, 82, 68, 87, 82],
    ) || contains_bytes(flags, seq![79u8, 95, 67, 82, 69, 65, 84]) || contains_bytes(
        flags,
        seq![79u8, 95, 84, 82, 85, 78, 67],
    ) || contains_bytes(flags, seq![79u8, 95, 65, 80, 80, 69, 78, 68])
}

pub fn write_flags(flags: &[u8]) -> (r: bool)
    ensures
        r == has_write_flags(flags@),
{
    let wronly: [u8; 8] = [79, 95, 87, 82, 79, 78, 76, 89];
    let rdwr: [u8; 6] = [79, 95, 82, 68, 87, 82];
    let creat: [u8; 7] = [79, 95, 67, 82, 69, 65, 84];
    let trunc: [u8; 7] = [79, 95, 84, 82, 85, 78, 67];
    let append: [u8; 8] = [79, 95, 65, 80, 80, 69, 78, 68];
    proof {
        assert(wronly@ =~= seq![79u8, 95, 87, 82, 79, 78, 76, 89]);
        assert(rdwr@ =~= seq![79u8, 95, 82, 68, 87, 82]);
        assert(creat@ =~= seq![79u8, 95, 67, 82, 69, 65, 84]);
        assert(trunc@ =~= seq![79u8, 95, 84, 82, 85, 78, 67]);
        assert(append@ =~= seq![79u8, 95, 65, 80, 80, 69, 78, 68]);
    }
    bytes_contain(flags, wronly.as_slice()) || bytes_contain(flags, rdwr.as_slice())
        || bytes_contain(flags, creat.as_slice()) || bytes_contain(flags, trunc.as_slice())
        || bytes_contain(flags, append.as_slice())
}

/// The touches implied by one completed call, and how many path arguments
/// failed to resolve.
pub open spec fn spec_classify(
    c: CtxV,
    name: Seq<u8>,
    args: Seq<Seq<u8>>,
    ret: int,
    ts: Option<int>,
) -> (Seq<PendingV>, int) {
    let sys = spec_sys_of(name);
    if sys == Sys::Open || sys == Sys::OpenAt {
        let pi: int = if sys == Sys::Open {
            0
        } else {
            1
        };
        if ret >= 0 && args.len() > pi + 1 {
            match spec_unquote(args[pi]) {
                Some(p) => {
                    let base = if sys == Sys::Open {
                        c.cwd
                    } else {
                        spec_openat_base(c, args[0])
                    };
                    match spec_resolve(p, base) {
                        Some(abs) => if has_write_flags(args[pi + 1]) {
                            (
                                seq![
                                    PendingV {
                                        path: abs,
                                        touch: Touch::WriteOpen,
                                        delta: None,
                                        ts,
                                    },
                                ],
                                0,
                            )
                        } else {
                            (Seq::empty(), 0)
                        },
                        None => (Seq::empty(), 1),
                    }
                },
                None => (Seq::empty(), 0),
            }
        } else {
            (Seq::empty(), 0)
        }
    } else if sys == Sys::Read || sys == Sys::Write {
        if ret >= 0 && args.len() >= 1 {
            match spec_parse_dec(args[0]) {
                Some(fd) => match assoc_find(c.fds, fd) {
                    Some(path) => (
                        seq![
                            PendingV {
                                path,
                                touch: if sys == Sys::Read {
                                    Touch::Accessed
                                } else {
                                    Touch::Modified
                                },
                                delta: Some(ret as u64),
                                ts,
                            },
                        ],
                        0,
                    ),
                    None => (Seq::empty(), 0),
                },
                None => (Seq::empty(), 0),
            }
        } else {
            (Seq::empty(), 0)
        }
    } else if sys == Sys::Unlink || sys == Sys::Execve {
        if ret >= 0 && args.len() >= 1 {
            match spec_unquote(args[0]) {
                Some(p) => match spec_resolve(p, c.cwd) {
                    Some(abs) => (
                        seq![
                            PendingV {
                                path: abs,
                                touch: if sys == Sys::Unlink {
                                    Touch::Deleted
                                } else {
                                    Touch::Accessed
                                },
                                delta: None,
                                ts,
                            },
                        ],
                        0,
                    ),
                    None => (Seq::empty(), 1),
                },
                None => (Seq::empty(), 0),
            }
        } else {
            (Seq::empty(), 0)
        }
    } else if sys == Sys::Rename {
        if ret >= 0 && args.len() >= 2 {
            let src = match spec_unquote(args[0]) {
                Some(p) => match spec_resolve(p, c.cwd) {
                    Some(abs) => (
                        seq![PendingV { path: abs, touch: Touch::Deleted, delta: None, ts }],
                        0int,
                    ),
                    None => (Seq::<PendingV>::empty(), 1int),
                },
                None => (Seq::<PendingV>::empty(), 0int),
            };
            let dst = match spec_unquote(args[1]) {
                Some(p) => match spec_resolve(p, c.cwd) {
                    Some(abs) => (
                        seq![PendingV { path: abs, touch: Touch::WriteOpen, delta: None, ts }],
                        0int,
                    ),
                    None => (Seq::<PendingV>::empty(), 1int),
                },
                None => (Seq::<PendingV>::empty(), 0int),
            };
            (src.0.add(dst.0), src.1 + dst.1)
        } else {
            (Seq::empty(), 0)
        }
    } else {
        (Seq::empty(), 0)
    }
}

fn classify_path(
    c: &ProcessContext,
    arg: &Vec<u8>,
    touch: Touch,
    ts: Option<u64>,
) -> (r: (Option<Pending>, u64))
    ensures
        ({
            let sp = match spec_unquote(arg@) {
                Some(p) => match spec_resolve(p, c@.cwd) {
                    Some(abs) => (
                        seq![PendingV { path: abs, touch, delta: None, ts: opt_int(ts) }],
                        0int,
                    ),
                    None => (Seq::<PendingV>::empty(), 1int),
                },
                None => (Seq::<PendingV>::empty(), 0int),
            };
            (match r.0 {
                Some(p) => seq![p@],
                None => Seq::<PendingV>::empty(),
            }) == sp.0 && r.1 as int == sp.1
        }),
{
    match unquote(arg.as_slice()) {
        Some(p) => {
            let cwd0 = crate::state::opt_bytes_copy(&c.cwd);
            match resolve(p.as_slice(), &cwd0) {
                Some(abs) => {
                    let out = Pending { path: abs, touch, delta: None, ts };
                    proof {
                        assert(seq![out@] =~= seq![
                            PendingV {
                                path: out.path@,
                                touch,
                                delta: None,
                                ts: opt_int(ts),
                            },
                        ]);
                    }
                    (Some(out), 0)
                },
                None => (None, 1),
            }
        },
        None => (None, 0),
    }
}

/// Classifies one completed call against the owning process's context.
pub fn classify(
    c: &ProcessContext,
    name: &[u8],
    args: &Vec<Vec<u8>>,
    ret: i64,
    ts: Option<u64>,
) -> (r: (Vec<Pending>, u64))
    ensures
        pend_views(r.0@) == spec_classify(c@, name@, byte_views(args@), ret as int, opt_int(ts)).0,
        r.1 as int == spec_classify(c@, name@, byte_views(args@), ret as int, opt_int(ts)).1,
{
    let sys = sys_of(name);
    let mut out: Vec<Pending> = Vec::new();
    let mut unres: u64 = 0;
    proof {
        assert(pend_views(out@) =~= Seq::<PendingV>::empty());
    }
    if sys == Sys::Open || sys == Sys::OpenAt {
        let pi: usize = if sys == Sys::Open {
            0
        } else {
            1
        };
        if ret >= 0 && args.len() > pi + 1 {
            proof {
                assert(byte_views(args@)[pi as int] == args@[pi as int]@);
                assert(byte_views(args@)[pi as int + 1] == args@[pi as int + 1]@);
                if pi == 1 {
                    assert(byte_views(args@)[0] == args@[0]@);
                }
            }
            match unquote(args[pi].as_slice()) {
                Some(p) => {
                    let base: Option<Vec<u8>> = if pi == 0 {
                        crate::state::opt_bytes_copy(&c.cwd)
                    } else {
                        openat_base(c, args[0].as_slice())
                    };
                    match resolve(p.as_slice(), &base) {
                        Some(abs) => {
                            if write_flags(args[pi + 1].as_slice()) {
                                let pnd = Pending {
                                    path: abs,
                                    touch: Touch::WriteOpen,
                                    delta: None,
                                    ts,
                                };
                                out.push(pnd);
                                proof {
                                    assert(pend_views(out@) =~= spec_classify(
                                        c@,
                                        name@,
                                        byte_views(args@),
                                        ret as int,
                                        opt_int(ts),
                                    ).0);
                                }
                            }
                        },
                        None => {
                            unres = 1;
                        },
                    }
                },
                None => {},
            }
        }
    } else if sys == Sys::Read || sys == Sys::Write {
        if ret >= 0 && args.len() >= 1 {
            proof {
                assert(byte_views(args@)[0] == args@[0]@);
                assert(args@[0]@.subrange(0, args@[0]@.len() as int) =~= args@[0]@);
            }
            match parse_dec(args[0].as_slice(), 0, args[0].len()) {
                Some(fd) => match c.fds.get(fd) {
                    Some(path) => {
                        let pnd = Pending {
                            path: slice_to_vec(path.as_slice()),
                            touch: if sys == Sys::Read {
                                Touch::Accessed
                            } else {
                                Touch::Modified
                            },
                            delta: Some(ret as u64),
                            ts,
                        };
                        out.push(pnd);
                        proof {
                            assert(pend_views(out@) =~= spec_classify(
                                c@,
                                name@,
                                byte_views(args@),
                                ret as int,
                                opt_int(ts),
                            ).0);
                        }
                    },
                    None => {},
                },
                None => {},
            }
        }
    } else if sys == Sys::Unlink || sys == Sys::Execve {
        if ret >= 0 && args.len() >= 1 {
            proof {
                assert(byte_views(args@)[0] == args@[0]@);
            }
            let touch = if sys == Sys::Unlink {
                Touch::Deleted
            } else {
                Touch::Accessed
            };
            let (p0, u0) = classify_path(c, &args[0], touch, ts);
            match p0 {
                Some(pnd) => {
                    out.push(pnd);
                    proof {
                        assert(pend_views(out@) =~= spec_classify(
                            c@,
                            name@,
                            byte_views(args@),
                            ret as int,
                            opt_int(ts),
                        ).0);
                    }
                },
                None => {},
            }
            unres = u0;
        }
    } else if sys == Sys::Rename {
        if ret >= 0 && args.len() >= 2 {
            proof {
                assert(byte_views(args@)[0] == args@[0]@);
                assert(byte_views(args@)[1] == args@[1]@);
            }
            let (p0, u0) = classify_path(c, &args[0], Touch::Deleted, ts);
            match p0 {
                Some(pnd) => out.push(pnd),
                None => {},
            }
            let (p1, u1) = classify_path(c, &args[1], Touch::WriteOpen, ts);
            match p1 {
                Some(pnd) => out.push(pnd),
                None => {},
            }
            unres = u0 + u1;
            proof {
                assert(pend_views(out@) =~= spec_classify(
                    c@,
                    name@,
                    byte_views(args@),
                    ret as int,
                    opt_int(ts),
                ).0);
            }
        }
    }
    (out, unres)
}

} // verus!
