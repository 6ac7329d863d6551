//! The trace follower: remembers which child processes were discovered via
//! clone/fork records, schedules their trace files breadth-first, and
//! derives each child's trace file name from the primary file's name.

use vstd::prelude::*;
use crate::agg::spec_rfind;
use crate::bytes::{dec_repr, spec_parse_dec, parse_dec, u64_to_dec};
use vstd::slice::{slice_subrange, slice_to_vec};

verus! {

/// Discovery of a process id: a no-op if the id is already known.
pub open spec fn spec_discover(s: Seq<u64>, p: u64) -> Seq<u64> {
    if s.contains(p) {
        s
    } else {
        s.push(p)
    }
}

/// Discovering a process id twice is the same as discovering it once: the
/// set of scheduled trace files never holds a file twice, so re-ingesting an
/// identical trace cannot be scheduled by the follower.
pub proof fn lemma_discover_idempotent(s: Seq<u64>, p: u64)
    ensures
        spec_discover(spec_discover(s, p), p) == spec_discover(s, p),
{
    if !s.contains(p) {
        assert(s.push(p)[s.len() as int] == p);
        assert(s.push(p).contains(p));
    }
}

/// The mathematical value of the follower: discovery order and ingestion
/// cursor.
#[verifier::ext_equal]
pub struct FollowerV {
    pub discovered: Seq<u64>,
    pub cursor: int,
}

/// Discovered process ids in breadth-first order, and the cursor of the next
/// one to ingest.
pub struct Follower {
    pub discovered: Vec<u64>,
    pub cursor: usize,
}

impl View for Follower {
    type V = FollowerV;

    open spec fn view(&self) -> FollowerV {
        FollowerV { discovered: self.discovered@, cursor: self.cursor as int }
    }
}

impl Follower {
    /// A follower that already counts the primary trace's process as
    /// ingested.
    pub fn new(root_pid: u64) -> (r: Follower)
        ensures
            r@.discovered == seq![root_pid],
            r@.cursor == 1,
    {
        let mut d: Vec<u64> = Vec::new();
        d.push(root_pid);
        proof {
            assert(d@ =~= seq![root_pid]);
        }
        Follower { discovered: d, cursor: 1 }
    }

    /// Schedules a child process id; already-known ids are left alone.
    /// Yields whether the id was new.
    pub fn discover(&mut self, p: u64) -> (fresh: bool)
        ensures
            final(self)@.discovered == spec_discover(old(self)@.discovered, p),
            final(self)@.cursor == old(self)@.cursor,
            fresh == !old(self)@.discovered.contains(p),
    {
        let mut i: usize = 0;
        while i < self.discovered.len()
            invariant
                0 <= i <= self.discovered@.len(),
                forall|k: int| 0 <= k < i ==> self.discovered@[k] != p,
            decreases self.discovered@.len() - i,
        {
            if self.discovered[i] == p {
                return false;
            }
            i = i + 1;
        }
        assert(!self.discovered@.contains(p));
        self.discovered.push(p);
        true
    }

    /// The next scheduled process id, advancing the cursor.
    pub fn next(&mut self) -> (r: Option<u64>)
        ensures
            final(self)@.discovered == old(self)@.discovered,
            match r {
                Some(p) => old(self)@.cursor < old(self)@.discovered.len() && p == old(
                    self,
                )@.discovered[old(self)@.cursor] && final(self)@.cursor == old(self)@.cursor + 1,
                None => old(self)@.cursor >= old(self)@.discovered.len() && final(self)@.cursor
                    == old(self)@.cursor,
            },
    {
        if self.cursor < self.discovered.len() {
            let p = self.discovered[self.cursor];
            self.cursor = self.cursor + 1;
            Some(p)
        } else {
            None
        }
    }
}

/// The trace file name of a child process: the primary file's name up to and
/// including its last `.`, followed by the child's decimal process id; a
/// primary name without a `.` gets `.pid` appended.
pub open spec fn spec_child_trace_name(primary: Seq<u8>, pid: u64) -> Seq<u8> {
    match spec_rfind(primary, primary.len() as int, 46) {
        Some(j) => primary.take(j + 1).add(dec_repr(pid as nat)),
        None => primary.add(seq![46u8]).add(dec_repr(pid as nat)),
    }
}

pub fn child_trace_name(primary: &[u8], pid: u64) -> (r: Vec<u8>)
    ensures
        r@ == spec_child_trace_name(primary@, pid),
{
    let digits = u64_to_dec(pid);
    match crate::agg::rfind(primary, primary.len(), 46) {
        Some(j) => {
            let mut v = slice_to_vec(slice_subrange(primary, 0, j + 1));
            v.extend_from_slice(digits.as_slice());
            proof {
                assert(v@ =~= primary@.take(j as int + 1).add(dec_repr(pid as nat)));
            }
            v
        },
        None => {
            let mut v = slice_to_vec(primary);
            v.push(46);
            v.extend_from_slice(digits.as_slice());
            proof {
                assert(v@ =~= primary@.add(seq![46u8]).add(dec_repr(pid as nat)));
            }
            v
        },
    }
}

/// The process id encoded in a trace file name: the decimal field after the
/// last `.`.
pub open spec fn spec_trace_pid(name: Seq<u8>) -> Option<u64> {
    match spec_rfind(name, name.len() as int, 46) {
        Some(j) => spec_parse_dec(name.subrange(j + 1, name.len() as int)),
        None => None,
    }
}

pub fn trace_pid(name: &[u8]) -> (r: Option<u64>)
    ensures
        r == spec_trace_pid(name@),
{
    match crate::agg::rfind(name, name.len(), 46) {
        Some(j) => parse_dec(name, j + 1, name.len()),
        None => None,
    }
}

} // verus!
