//! The analysis session: parses lines, drives the process state table and
//! the classifier, resolves created-vs-modified against the run's view,
//! folds touches into the directory rollup, tracks diagnostics, and emits
//! the final report in canonical order.

use vstd::prelude::*;
use crate::agg::{
    spec_ancestors, spec_fold, spec_parent_dir, spec_sort, Aggregator, DirStats, Kind, StatsV,
    ancestors, parent_dir, sort_stats, stats_views,
};
use crate::bytes::{byte_views, eq_bytes};
use crate::classify::{classify, pend_views, spec_classify, Pending, PendingV, Touch};
use crate::follow::{spec_discover, Follower, FollowerV};
use crate::parser::{opt_int, parse_line, parse_line_spec, Line, LineV, cap64, split_args,
    spec_split_args};
use crate::state::{ctx_of, spec_apply, spec_sys_of, sys_of, CtxV, FdTable, ProcessContext,
    ProcessTable, Sys};
use vstd::slice::slice_to_vec;

verus! {

/// How a directory's age is computed.
#[derive(PartialEq, Eq, Structural, Clone, Copy, Debug)]
pub enum AgePolicy {
    /// Span between the earliest and the latest timestamp observed for the
    /// directory (the default).
    FirstToLast,
    /// Span between the given run-start timestamp and the latest timestamp
    /// observed for the directory.
    FromRunStart(u64),
}

/// The configuration surface of the engine.
#[derive(PartialEq, Eq, Structural, Clone, Copy, Debug)]
pub struct Config {
    /// Charge each record to every ancestor directory instead of the
    /// immediate parent only.
    pub deep_rollup: bool,
    pub age: AgePolicy,
}

/// The parse-diagnostics summary surfaced with every report.
#[derive(PartialEq, Eq, Structural, Clone, Copy, Debug)]
pub struct Diagnostics {
    pub lines_total: u64,
    pub lines_skipped: u64,
    pub lines_malformed: u64,
    pub paths_unresolved: u64,
    pub processes_discovered: u64,
    pub processes_missing_trace: u64,
}

/// An interrupted call waiting for its resumed continuation.
pub struct PendCall {
    pub name: Vec<u8>,
    pub partial: Vec<u8>,
    pub ts: Option<u64>,
}

/// The mathematical value of a [`PendCall`].
#[verifier::ext_equal]
pub struct PendCallV {
    pub name: Seq<u8>,
    pub partial: Seq<u8>,
    pub ts: Option<int>,
}

impl View for PendCall {
    type V = PendCallV;

    open spec fn view(&self) -> PendCallV {
        PendCallV { name: self.name@, partial: self.partial@, ts: opt_int(self.ts) }
    }
}

pub open spec fn pc_views(s: Seq<(u64, PendCall)>) -> Seq<(u64, PendCallV)> {
    s.map_values(|p: (u64, PendCall)| (p.0, p.1@))
}

pub open spec fn pc_find(s: Seq<(u64, PendCallV)>, pid: u64) -> Option<PendCallV>
    decreases s.len(),
{
    if s.len() == 0 {
        None
    } else if s[0].0 == pid {
        Some(s[0].1)
    } else {
        pc_find(s.drop_first(), pid)
    }
}

pub open spec fn pc_remove(s: Seq<(u64, PendCallV)>, pid: u64) -> Seq<(u64, PendCallV)>
    decreases s.len(),
{
    if s.len() == 0 {
        s
    } else if s[0].0 == pid {
        pc_remove(s.drop_first(), pid)
    } else {
        seq![s[0]].add(pc_remove(s.drop_first(), pid))
    }
}

pub open spec fn pc_store(s: Seq<(u64, PendCallV)>, pid: u64, c: PendCallV) -> Seq<(
    u64,
    PendCallV,
)> {
    pc_remove(s, pid).push((pid, c))
}

fn pc_get(s: &[(u64, PendCall)], pid: u64) -> (r: Option<&PendCall>)
    ensures
        match r {
            Some(c) => pc_find(pc_views(s@), pid) == Some(c@),
            None => pc_find(pc_views(s@), pid) is None,
        },
    decreases s@.len(),
{
    if s.len() == 0 {
        None
    } else if s[0].0 == pid {
        Some(&s[0].1)
    } else {
        let rest = vstd::slice::slice_subrange(s, 1, s.len());
        proof {
            assert(pc_views(rest@) =~= pc_views(s@).drop_first());
        }
        pc_get(rest, pid)
    }
}

fn pc_del(s: &[(u64, PendCall)], pid: u64) -> (r: Vec<(u64, PendCall)>)
    ensures
        pc_views(r@) == pc_remove(pc_views(s@), pid),
    decreases s@.len(),
{
    if s.len() == 0 {
        let r: Vec<(u64, PendCall)> = Vec::new();
        proof {
            assert(pc_views(r@) =~= pc_remove(pc_views(s@), pid));
        }
        r
    } else {
        let rest = vstd::slice::slice_subrange(s, 1, s.len());
        proof {
            assert(pc_views(rest@) =~= pc_views(s@).drop_first());
        }
        let mut tail = pc_del(rest, pid);
        if s[0].0 == pid {
            tail
        } else {
            let key = s[0].0;
            let copy = PendCall {
                name: slice_to_vec(s[0].1.name.as_slice()),
                partial: slice_to_vec(s[0].1.partial.as_slice()),
                ts: s[0].1.ts,
            };
            proof {
                assert(copy@ =~= s@[0].1@);
            }
            tail.insert(0, (key, copy));
            proof {
                assert(pc_views(tail@) =~= seq![pc_views(s@)[0]].add(
                    pc_remove(pc_views(s@).drop_first(), pid),
                ));
            }
            tail
        }
    }
}

/// A counter bumped by one, saturating.
pub open spec fn bump(x: u64) -> u64 {
    cap64(x + 1) as u64
}

fn bump_exec(x: u64) -> (r: u64)
    ensures
        r == bump(x),
{
    if x < u64::MAX {
        x + 1
    } else {
        x
    }
}

/// A path marked as part of the run's view.
pub open spec fn seen_add(s: Seq<Seq<u8>>, p: Seq<u8>) -> Seq<Seq<u8>> {
    if s.contains(p) {
        s
    } else {
        s.push(p)
    }
}

/// The final classification of a touch: a write-open becomes `modified` when
/// the path pre-existed in the run's view, else `created`.
pub open spec fn kind_of(touch: Touch, seen: Seq<Seq<u8>>, path: Seq<u8>) -> Kind {
    match touch {
        Touch::Accessed => Kind::Accessed,
        Touch::Modified => Kind::Modified,
        Touch::Deleted => Kind::Deleted,
        Touch::WriteOpen => if seen.contains(path) {
            Kind::Modified
        } else {
            Kind::Created
        },
    }
}

/// The directories a record on `path` is charged to.
pub open spec fn spec_targets(path: Seq<u8>, deep: bool) -> Seq<Seq<u8>> {
    if deep {
        spec_ancestors(path)
    } else {
        match spec_parent_dir(path) {
            Some(d) => seq![d],
            None => Seq::empty(),
        }
    }
}

pub open spec fn opt_u64_of(o: Option<int>) -> Option<u64> {
    match o {
        Some(v) => Some(v as u64),
        None => None,
    }
}

pub open spec fn spec_fold_dirs(
    dirs: Seq<StatsV>,
    targets: Seq<Seq<u8>>,
    k: Kind,
    delta: Option<u64>,
    ts: Option<u64>,
) -> Seq<StatsV>
    decreases targets.len(),
{
    if targets.len() == 0 {
        dirs
    } else {
        spec_fold_dirs(spec_fold(dirs, targets[0], k, delta, ts), targets.drop_first(), k, delta, ts)
    }
}

/// Folding a stream of touches into the view set and the rollup table.
pub open spec fn spec_fold_pends(
    seen: Seq<Seq<u8>>,
    dirs: Seq<StatsV>,
    deep: bool,
    pends: Seq<PendingV>,
) -> (Seq<Seq<u8>>, Seq<StatsV>)
    decreases pends.len(),
{
    if pends.len() == 0 {
        (seen, dirs)
    } else {
        let p = pends[0];
        let k = kind_of(p.touch, seen, p.path);
        let seen2 = seen_add(seen, p.path);
        let dirs2 = spec_fold_dirs(dirs, spec_targets(p.path, deep), k, p.delta, opt_u64_of(p.ts));
        spec_fold_pends(seen2, dirs2, deep, pends.drop_first())
    }
}

/// The mathematical value of an analysis session.
#[verifier::ext_equal]
pub struct AnalysisV {
    pub deep: bool,
    pub table: Seq<CtxV>,
    pub pending: Seq<(u64, PendCallV)>,
    pub seen: Seq<Seq<u8>>,
    pub dirs: Seq<StatsV>,
    pub follower: FollowerV,
    pub diag: Diagnostics,
}

pub open spec fn with_diag(m: AnalysisV, diag: Diagnostics) -> AnalysisV {
    AnalysisV {
        deep: m.deep,
        table: m.table,
        pending: m.pending,
        seen: m.seen,
        dirs: m.dirs,
        follower: m.follower,
        diag,
    }
}

/// The session transition for one completed call (possibly assembled from an
/// interrupted call and its continuation).
pub open spec fn spec_event(
    m: AnalysisV,
    pid: u64,
    name: Seq<u8>,
    args: Seq<Seq<u8>>,
    ret: int,
    ts: Option<int>,
) -> AnalysisV {
    if spec_sys_of(name) == Sys::Other {
        with_diag(
            m,
            Diagnostics { lines_skipped: bump(m.diag.lines_skipped), ..m.diag },
        )
    } else {
        let c = ctx_of(m.table, pid);
        let cls = spec_classify(c, name, args, ret, ts);
        let ap = spec_apply(m.table, pid, name, args, ret);
        let folded = spec_fold_pends(m.seen, m.dirs, m.deep, cls.0);
        let disc2 = match ap.1 {
            Some(ch) => spec_discover(m.follower.discovered, ch),
            None => m.follower.discovered,
        };
        let ndisc: int = match ap.1 {
            Some(ch) => if m.follower.discovered.contains(ch) {
                0
            } else {
                1
            },
            None => 0,
        };
        AnalysisV {
            deep: m.deep,
            table: ap.0,
            pending: m.pending,
            seen: folded.0,
            dirs: folded.1,
            follower: FollowerV { discovered: disc2, cursor: m.follower.cursor },
            diag: Diagnostics {
                paths_unresolved: (cap64(m.diag.paths_unresolved + cls.1) as u64),
                processes_discovered: (cap64(m.diag.processes_discovered + ndisc) as u64),
                ..m.diag
            },
        }
    }
}

/// The session transition for one raw trace line of process `pid`: the full
/// functional specification of ingestion.
pub open spec fn spec_ingest(m: AnalysisV, pid: u64, line: Seq<u8>) -> AnalysisV {
    let m1 = with_diag(m, Diagnostics { lines_total: bump(m.diag.lines_total), ..m.diag });
    match parse_line_spec(line) {
        LineV::Malformed => with_diag(
            m1,
            Diagnostics { lines_malformed: bump(m1.diag.lines_malformed), ..m1.diag },
        ),
        LineV::Skipped => with_diag(
            m1,
            Diagnostics { lines_skipped: bump(m1.diag.lines_skipped), ..m1.diag },
        ),
        LineV::Unfinished { name, partial, ts } => AnalysisV {
            pending: pc_store(m1.pending, pid, PendCallV { name, partial, ts }),
            ..m1
        },
        LineV::Resumed { name, tail, ret, ts } => match pc_find(m1.pending, pid) {
            Some(pc) => if pc.name == name {
                let m2 = AnalysisV { pending: pc_remove(m1.pending, pid), ..m1 };
                let ets = if pc.ts is Some {
                    pc.ts
                } else {
                    ts
                };
                spec_event(m2, pid, name, spec_split_args(pc.partial.add(tail)), ret, ets)
            } else {
                with_diag(
                    m1,
                    Diagnostics { lines_skipped: bump(m1.diag.lines_skipped), ..m1.diag },
                )
            },
            None => with_diag(
                m1,
                Diagnostics { lines_skipped: bump(m1.diag.lines_skipped), ..m1.diag },
            ),
        },
        LineV::Call { name, args, ret, ts } => spec_event(m1, pid, name, args, ret, ts),
    }
}

/// One analysis session over a primary trace and its discovered children.
pub struct Analysis {
    pub config: Config,
    pub table: ProcessTable,
    pub pending: Vec<(u64, PendCall)>,
    pub seen: Vec<Vec<u8>>,
    pub agg: Aggregator,
    pub follower: Follower,
    pub diag: Diagnostics,
}

impl View for Analysis {
    type V = AnalysisV;

    open spec fn view(&self) -> AnalysisV {
        AnalysisV {
            deep: self.config.deep_rollup,
            table: self.table@,
            pending: pc_views(self.pending@),
            seen: byte_views(self.seen@),
            dirs: self.agg@,
            follower: self.follower@,
            diag: self.diag,
        }
    }
}

impl Analysis {
    /// A fresh session: the primary trace's process counts as already
    /// scheduled.
    pub fn new(config: Config, root_pid: u64) -> (r: Analysis)
        ensures
            r@.deep == config.deep_rollup,
            r@.table == Seq::<CtxV>::empty(),
            r@.pending == Seq::<(u64, PendCallV)>::empty(),
            r@.seen == Seq::<Seq<u8>>::empty(),
            r@.dirs == Seq::<StatsV>::empty(),
            r@.follower.discovered == seq![root_pid],
            r@.follower.cursor == 1,
            r@.diag == (Diagnostics {
                lines_total: 0,
                lines_skipped: 0,
                lines_malformed: 0,
                paths_unresolved: 0,
                processes_discovered: 0,
                processes_missing_trace: 0,
            }),
            r.config == config,
    {
        let r = Analysis {
            config,
            table: ProcessTable::new(),
            pending: Vec::new(),
            seen: Vec::new(),
            agg: Aggregator::new(),
            follower: Follower::new(root_pid),
            diag: Diagnostics {
                lines_total: 0,
                lines_skipped: 0,
                lines_malformed: 0,
                paths_unresolved: 0,
                processes_discovered: 0,
                processes_missing_trace: 0,
            },
        };
        proof {
            assert(pc_views(r.pending@) =~= Seq::<(u64, PendCallV)>::empty());
            assert(byte_views(r.seen@) =~= Seq::<Seq<u8>>::empty());
        }
        r
    }

    #[verifier::loop_isolation(false)]
    fn seen_contains(&self, p: &[u8]) -> (r: bool)
        ensures
            r == byte_views(self.seen@).contains(p@),
    {
        let mut i: usize = 0;
        while i < self.seen.len()
            invariant
                0 <= i <= self.seen@.len(),
                forall|k: int| 0 <= k < i ==> byte_views(self.seen@)[k] != p@,
            decreases self.seen@.len() - i,
        {
            if eq_bytes(self.seen[i].as_slice(), p) {
                assert(byte_views(self.seen@)[i as int] == p@);
                return true;
            }
            i = i + 1;
        }
        proof {
            if byte_views(self.seen@).contains(p@) {
                let k = choose|k: int|
                    0 <= k < byte_views(self.seen@).len() && byte_views(self.seen@)[k] == p@;
                assert(false);
            }
        }
        false
    }

    #[verifier::loop_isolation(false)]
    fn fold_one(&mut self, p: &Pending)
        ensures
            final(self)@ == (AnalysisV {
                seen: seen_add(old(self)@.seen, p@.path),
                dirs: spec_fold_dirs(
                    old(self)@.dirs,
                    spec_targets(p@.path, old(self)@.deep),
                    kind_of(p@.touch, old(self)@.seen, p@.path),
                    p@.delta,
                    opt_u64_of(p@.ts),
                ),
                ..old(self)@
            }),
    {
        let k: Kind = match p.touch {
            Touch::Accessed => Kind::Accessed,
            Touch::Modified => Kind::Modified,
            Touch::Deleted => Kind::Deleted,
            Touch::WriteOpen => {
                if self.seen_contains(p.path.as_slice()) {
                    Kind::Modified
                } else {
                    Kind::Created
                }
            },
        };
        if !self.seen_contains(p.path.as_slice()) {
            self.seen.push(slice_to_vec(p.path.as_slice()));
            proof {
                assert(byte_views(self.seen@) =~= seen_add(byte_views(old(self).seen@), p@.path));
            }
        }
        let targets: Vec<Vec<u8>> = if self.config.deep_rollup {
            ancestors(p.path.as_slice())
        } else {
            match parent_dir(p.path.as_slice()) {
                Some(d) => {
                    let mut v: Vec<Vec<u8>> = Vec::new();
                    v.push(d);
                    proof {
                        assert(byte_views(v@) =~= spec_targets(p@.path, false));
                    }
                    v
                },
                None => {
                    let v: Vec<Vec<u8>> = Vec::new();
                    proof {
                        assert(byte_views(v@) =~= spec_targets(p@.path, false));
                    }
                    v
                },
            }
        };
        let ghost d0 = self.agg@;
        proof {
            assert(byte_views(targets@).skip(0) =~= byte_views(targets@));
            match p.ts {
                Some(t) => assert(opt_u64_of(p@.ts) == Some(t)),
                None => assert(opt_u64_of(p@.ts) is None),
            }
        }
        let mut i: usize = 0;
        while i < targets.len()
            invariant
                0 <= i <= targets@.len(),
                spec_fold_dirs(
                    self.agg@,
                    byte_views(targets@).skip(i as int),
                    k,
                    p.delta,
                    p.ts,
                ) == spec_fold_dirs(d0, byte_views(targets@), k, p.delta, p.ts),
                self.config == old(self).config,
                self@.table == old(self)@.table,
                self@.pending == old(self)@.pending,
                self@.seen == seen_add(old(self)@.seen, p@.path),
                self@.follower == old(self)@.follower,
                self@.diag == old(self)@.diag,
            decreases targets@.len() - i,
        {
            proof {
                assert(byte_views(targets@).skip(i as int)[0] == targets@[i as int]@);
                assert(byte_views(targets@).skip(i as int).drop_first() =~= byte_views(
                    targets@,
                ).skip(i as int + 1));
            }
            self.agg.fold(targets[i].as_slice(), k, p.delta, p.ts);
            i = i + 1;
        }
        proof {
            assert(byte_views(targets@).skip(targets@.len() as int) =~= Seq::<Seq<u8>>::empty());
            assert(spec_fold_dirs(
                self.agg@,
                byte_views(targets@).skip(targets@.len() as int),
                k,
                p.delta,
                p.ts,
            ) == self.agg@);
            assert(byte_views(targets@) == spec_targets(p@.path, old(self)@.deep));
            assert(self@ =~= (AnalysisV {
                seen: seen_add(old(self)@.seen, p@.path),
                dirs: spec_fold_dirs(
                    old(self)@.dirs,
                    spec_targets(p@.path, old(self)@.deep),
                    kind_of(p@.touch, old(self)@.seen, p@.path),
                    p@.delta,
                    opt_u64_of(p@.ts),
                ),
                ..old(self)@
            }));
        }
    }

    fn fold_pends(&mut self, pends: &Vec<Pending>, i: usize)
        requires
            i <= pends@.len(),
        ensures
            ({
                let folded = spec_fold_pends(
                    old(self)@.seen,
                    old(self)@.dirs,
                    old(self)@.deep,
                    pend_views(pends@).skip(i as int),
                );
                final(self)@ == (AnalysisV { seen: folded.0, dirs: folded.1, ..old(self)@ })
            }),
        decreases pends@.len() - i,
    {
        if i < pends.len() {
            proof {
                assert(pend_views(pends@).skip(i as int)[0] == pends@[i as int]@);
                assert(pend_views(pends@).skip(i as int).drop_first() =~= pend_views(
                    pends@,
                ).skip(i as int + 1));
            }
            self.fold_one(&pends[i]);
            self.fold_pends(pends, i + 1);
        } else {
            proof {
                assert(pend_views(pends@).skip(i as int) =~= Seq::<PendingV>::empty());
                assert(self@ =~= old(self)@);
            }
        }
    }

    fn handle_event(&mut self, pid: u64, name: &[u8], args: &Vec<Vec<u8>>, ret: i64, ts: Option<
        u64,
    >)
        ensures
            final(self)@ == spec_event(
                old(self)@,
                pid,
                name@,
                byte_views(args@),
                ret as int,
                opt_int(ts),
            ),
    {
        let sys = sys_of(name);
        if sys == Sys::Other {
            self.diag.lines_skipped = bump_exec(self.diag.lines_skipped);
            proof {
                assert(self@ =~= spec_event(
                    old(self)@,
                    pid,
                    name@,
                    byte_views(args@),
                    ret as int,
                    opt_int(ts),
                ));
            }
            return;
        }
        let cls: (Vec<Pending>, u64) = match self.table.get(pid) {
            Some(c) => classify(c, name, args, ret, ts),
            None => {
                let dc = ProcessContext { pid, parent: None, cwd: None, fds: FdTable::new() };
                proof {
                    assert(dc@ =~= ctx_of(self@.table, pid));
                }
                classify(&dc, name, args, ret, ts)
            },
        };
        let (pends, unres) = cls;
        let child = self.table.apply(pid, name, args, ret);
        self.fold_pends(&pends, 0);
        match child {
            Some(ch) => {
                let fresh = self.follower.discover(ch);
                if fresh {
                    self.diag.processes_discovered = bump_exec(self.diag.processes_discovered);
                }
            },
            None => {},
        }
        if unres > 0 {
            if self.diag.paths_unresolved <= u64::MAX - unres {
                self.diag.paths_unresolved = self.diag.paths_unresolved + unres;
            } else {
                self.diag.paths_unresolved = u64::MAX;
            }
        }
        proof {
            assert(pend_views(pends@).skip(0) =~= pend_views(pends@));
            assert(self@ =~= spec_event(
                old(self)@,
                pid,
                name@,
                byte_views(args@),
                ret as int,
                opt_int(ts),
            ));
        }
    }

    /// Ingests one raw line of the trace file of process `pid`.
    pub fn ingest_line(&mut self, pid: u64, line: &[u8])
        ensures
            final(self)@ == spec_ingest(old(self)@, pid, line@),
    {
        self.diag.lines_total = bump_exec(self.diag.lines_total);
        let ghost m1 = self@;
        proof {
            assert(m1 =~= with_diag(
                old(self)@,
                Diagnostics { lines_total: bump(old(self)@.diag.lines_total), ..old(self)@.diag },
            ));
        }
        match parse_line(line) {
            Line::Malformed => {
                self.diag.lines_malformed = bump_exec(self.diag.lines_malformed);
                proof {
                    assert(self@ =~= spec_ingest(old(self)@, pid, line@));
                }
            },
            Line::Skipped => {
                self.diag.lines_skipped = bump_exec(self.diag.lines_skipped);
                proof {
                    assert(self@ =~= spec_ingest(old(self)@, pid, line@));
                }
            },
            Line::Unfinished { name, partial, ts } => {
                let ghost gname = name@;
                let ghost gpartial = partial@;
                let pc = PendCall { name, partial, ts };
                let mut np = pc_del(self.pending.as_slice(), pid);
                np.push((pid, pc));
                self.pending = np;
                proof {
                    assert(pc_views(self.pending@) =~= pc_store(
                        m1.pending,
                        pid,
                        PendCallV { name: gname, partial: gpartial, ts: opt_int(ts) },
                    ));
                    assert(self@ =~= spec_ingest(old(self)@, pid, line@));
                }
            },
            Line::Resumed { name, tail, ret, ts } => {
                let hit: Option<(Vec<u8>, Option<u64>)> = match pc_get(
                    self.pending.as_slice(),
                    pid,
                ) {
                    Some(pc) => {
                        if eq_bytes(pc.name.as_slice(), name.as_slice()) {
                            let mut combined = slice_to_vec(pc.partial.as_slice());
                            combined.extend_from_slice(tail.as_slice());
                            Some((combined, pc.ts))
                        } else {
                            None
                        }
                    },
                    None => None,
                };
                match hit {
                    Some((combined, pts)) => {
                        self.pending = pc_del(self.pending.as_slice(), pid);
                        proof {
                            assert(self@ =~= (AnalysisV {
                                pending: pc_remove(m1.pending, pid),
                                ..m1
                            }));
                        }
                        let args = split_args(combined.as_slice());
                        let ets: Option<u64> = match pts {
                            Some(t) => Some(t),
                            None => ts,
                        };
                        proof {
                            let pcv = pc_find(m1.pending, pid).unwrap();
                            assert(combined@ == pcv.partial.add(tail@));
                            match pts {
                                Some(t) => assert(opt_int(ets) == pcv.ts),
                                None => assert(opt_int(ets) == opt_int(ts)),
                            }
                        }
                        self.handle_event(pid, name.as_slice(), &args, ret, ets);
                        proof {
                            assert(self@ =~= spec_ingest(old(self)@, pid, line@));
                        }
                    },
                    None => {
                        self.diag.lines_skipped = bump_exec(self.diag.lines_skipped);
                        proof {
                            assert(self@ =~= spec_ingest(old(self)@, pid, line@));
                        }
                    },
                }
            },
            Line::Call { name, args, ret, ts } => {
                self.handle_event(pid, name.as_slice(), &args, ret, ts);
                proof {
                    assert(self@ =~= spec_ingest(old(self)@, pid, line@));
                }
            },
        }
    }

    /// The next discovered child process to ingest, breadth-first.
    pub fn next_child(&mut self) -> (r: Option<u64>)
        ensures
            final(self)@ == (AnalysisV { follower: final(self)@.follower, ..old(self)@ }),
            final(self)@.follower.discovered == old(self)@.follower.discovered,
            ({
                let oldf = old(self)@.follower;
                match r {
                    Some(p) => oldf.cursor < oldf.discovered.len() && p
                        == oldf.discovered[oldf.cursor] && final(self)@.follower.cursor
                        == oldf.cursor + 1,
                    None => oldf.cursor >= oldf.discovered.len() && final(self)@.follower.cursor
                        == oldf.cursor,
                }
            }),
    {
        let r = self.follower.next();
        proof {
            assert(self@ =~= (AnalysisV { follower: final(self)@.follower, ..old(self)@ }));
        }
        r
    }

    /// Records that a discovered child's trace file could not be found: a
    /// soft condition, never fatal.
    pub fn mark_missing_trace(&mut self)
        ensures
            final(self)@ == with_diag(
                old(self)@,
                Diagnostics {
                    processes_missing_trace: bump(old(self)@.diag.processes_missing_trace),
                    ..old(self)@.diag
                },
            ),
    {
        self.diag.processes_missing_trace = bump_exec(self.diag.processes_missing_trace);
        proof {
            assert(self@ =~= with_diag(
                old(self)@,
                Diagnostics {
                    processes_missing_trace: bump(old(self)@.diag.processes_missing_trace),
                    ..old(self)@.diag
                },
            ));
        }
    }

    /// The diagnostics summary.
    pub fn diagnostics(&self) -> (r: Diagnostics)
        ensures
            r == self@.diag,
    {
        self.diag
    }

    /// The final report: one entry per directory, sorted by path.
    pub fn report(&self) -> (r: Vec<DirStats>)
        ensures
            stats_views(r@) == spec_sort(self@.dirs),
    {
        sort_stats(self.agg.dirs.as_slice())
    }
}

/// The age of a directory under a policy: the span of its activity window,
/// or from the run start to its last activity; directories without any real
/// timestamp have no age.
pub open spec fn spec_age(policy: AgePolicy, s: StatsV) -> Option<u64> {
    match policy {
        AgePolicy::FirstToLast => match (s.first_ts, s.last_ts) {
            (Some(f), Some(l)) => if l >= f {
                Some((l - f) as u64)
            } else {
                Some(0)
            },
            _ => None,
        },
        AgePolicy::FromRunStart(t0) => match s.last_ts {
            Some(l) => if l >= t0 {
                Some((l - t0) as u64)
            } else {
                Some(0)
            },
            None => None,
        },
    }
}

/// Computes a directory's age under the given policy.
pub fn age_of(policy: AgePolicy, s: &DirStats) -> (r: Option<u64>)
    ensures
        r == spec_age(policy, s@),
{
    match policy {
        AgePolicy::FirstToLast => match (s.first_ts, s.last_ts) {
            (Some(f), Some(l)) => if l >= f {
                Some(l - f)
            } else {
                Some(0)
            },
            _ => None,
        },
        AgePolicy::FromRunStart(t0) => match s.last_ts {
            Some(l) => if l >= t0 {
                Some(l - t0)
            } else {
                Some(0)
            },
            None => None,
        },
    }
}

} // verus!
