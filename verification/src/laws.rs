//! The engine's global laws: the size bounds of every directory rollup are
//! kept by every ingestion step and by the final report, and the report's
//! order is canonical — determined by its contents alone.

use vstd::prelude::*;
use crate::agg::{
    all_stats_wf, lemma_fold_wf, lex_le, lemma_lex_antisym, lemma_sort_spec, spec_fold, spec_sort,
    stats_sorted, StatsV,
};
use crate::classify::PendingV;
use crate::engine::{spec_event, spec_fold_dirs, spec_fold_pends, spec_ingest, AnalysisV};
use crate::parser::{parse_line_spec, LineV};

verus! {

/// No two rollup entries name the same directory.
pub open spec fn paths_unique(s: Seq<StatsV>) -> bool {
    forall|i: int, j: int|
        0 <= i < j < s.len() ==> (#[trigger] s[i].path) != (#[trigger] s[j].path)
}

/// The rollup table's invariant: sizes bounded by the total, one entry per
/// directory.
pub open spec fn dirs_inv(s: Seq<StatsV>) -> bool {
    all_stats_wf(s) && paths_unique(s)
}

/// Every path of a fold result is the folded directory or one of the table's
/// own.
proof fn lemma_fold_paths(s: Seq<StatsV>, dir: Seq<u8>, k: crate::agg::Kind, delta: Option<u64>, ts: Option<u64>)
    ensures
        forall|m: int|
            0 <= m < spec_fold(s, dir, k, delta, ts).len() ==> ((#[trigger] spec_fold(
                s,
                dir,
                k,
                delta,
                ts,
            )[m]).path == dir || (exists|j: int|
                0 <= j < s.len() && (#[trigger] s[j]).path == spec_fold(s, dir, k, delta, ts)[m].path)),
    decreases s.len(),
{
    let f = spec_fold(s, dir, k, delta, ts);
    if s.len() == 0 {
    } else if s[0].path == dir {
        assert forall|m: int| 0 <= m < f.len() implies ((#[trigger] f[m]).path == dir || (exists|
            j: int,
        |
            0 <= j < s.len() && (#[trigger] s[j]).path == f[m].path)) by {
            if m > 0 {
                assert(f[m] == s[m]);
                assert(s[m].path == f[m].path);
            }
        }
    } else {
        lemma_fold_paths(s.drop_first(), dir, k, delta, ts);
        let ft = spec_fold(s.drop_first(), dir, k, delta, ts);
        assert forall|m: int| 0 <= m < f.len() implies ((#[trigger] f[m]).path == dir || (exists|
            j: int,
        |
            0 <= j < s.len() && (#[trigger] s[j]).path == f[m].path)) by {
            if m == 0 {
                assert(s[0].path == f[0].path);
            } else {
                assert(f[m] == ft[m - 1]);
                if ft[m - 1].path != dir {
                    let j = choose|j: int|
                        0 <= j < s.drop_first().len() && s.drop_first()[j].path == ft[m - 1].path;
                    assert(s[j + 1].path == f[m].path);
                }
            }
        }
    }
}

/// One fold keeps the rollup invariant.
proof fn lemma_fold_inv(s: Seq<StatsV>, dir: Seq<u8>, k: crate::agg::Kind, delta: Option<u64>, ts: Option<u64>)
    requires
        dirs_inv(s),
    ensures
        dirs_inv(spec_fold(s, dir, k, delta, ts)),
    decreases s.len(),
{
    lemma_fold_wf(s, dir, k, delta, ts);
    let f = spec_fold(s, dir, k, delta, ts);
    if s.len() == 0 {
    } else if s[0].path == dir {
        assert forall|i: int, j: int| 0 <= i < j < f.len() implies (#[trigger] f[i].path)
            != (#[trigger] f[j].path) by {
            assert(f[j] == s[j]);
            if i > 0 {
                assert(f[i] == s[i]);
            } else {
                assert(f[0].path == s[0].path);
            }
        }
    } else {
        assert(dirs_inv(s.drop_first()));
        lemma_fold_inv(s.drop_first(), dir, k, delta, ts);
        lemma_fold_paths(s.drop_first(), dir, k, delta, ts);
        let ft = spec_fold(s.drop_first(), dir, k, delta, ts);
        assert forall|i: int, j: int| 0 <= i < j < f.len() implies (#[trigger] f[i].path)
            != (#[trigger] f[j].path) by {
            if i > 0 {
                assert(f[i] == ft[i - 1] && f[j] == ft[j - 1]);
            } else {
                assert(f[0].path == s[0].path);
                assert(f[j] == ft[j - 1]);
                if ft[j - 1].path == dir {
                } else {
                    let m = choose|m: int|
                        0 <= m < s.drop_first().len() && s.drop_first()[m].path == ft[j - 1].path;
                    assert(s[m + 1].path == ft[j - 1].path);
                }
            }
        }
    }
}

proof fn lemma_fold_dirs_inv(
    dirs: Seq<StatsV>,
    targets: Seq<Seq<u8>>,
    k: crate::agg::Kind,
    delta: Option<u64>,
    ts: Option<u64>,
)
    requires
        dirs_inv(dirs),
    ensures
        dirs_inv(spec_fold_dirs(dirs, targets, k, delta, ts)),
    decreases targets.len(),
{
    if targets.len() > 0 {
        lemma_fold_inv(dirs, targets[0], k, delta, ts);
        lemma_fold_dirs_inv(
            spec_fold(dirs, targets[0], k, delta, ts),
            targets.drop_first(),
            k,
            delta,
            ts,
        );
    }
}

proof fn lemma_fold_pends_inv(
    seen: Seq<Seq<u8>>,
    dirs: Seq<StatsV>,
    deep: bool,
    pends: Seq<PendingV>,
)
    requires
        dirs_inv(dirs),
    ensures
        dirs_inv(spec_fold_pends(seen, dirs, deep, pends).1),
    decreases pends.len(),
{
    if pends.len() > 0 {
        let p = pends[0];
        let k = crate::engine::kind_of(p.touch, seen, p.path);
        let dirs2 = spec_fold_dirs(
            dirs,
            crate::engine::spec_targets(p.path, deep),
            k,
            p.delta,
            crate::engine::opt_u64_of(p.ts),
        );
        lemma_fold_dirs_inv(
            dirs,
            crate::engine::spec_targets(p.path, deep),
            k,
            p.delta,
            crate::engine::opt_u64_of(p.ts),
        );
        lemma_fold_pends_inv(
            crate::engine::seen_add(seen, p.path),
            dirs2,
            deep,
            pends.drop_first(),
        );
    }
}

proof fn lemma_event_inv(
    m: AnalysisV,
    pid: u64,
    name: Seq<u8>,
    args: Seq<Seq<u8>>,
    ret: int,
    ts: Option<int>,
)
    requires
        dirs_inv(m.dirs),
    ensures
        dirs_inv(spec_event(m, pid, name, args, ret, ts).dirs),
{
    if crate::state::spec_sys_of(name) != crate::state::Sys::Other {
        let c = crate::state::ctx_of(m.table, pid);
        let cls = crate::classify::spec_classify(c, name, args, ret, ts);
        lemma_fold_pends_inv(m.seen, m.dirs, m.deep, cls.0);
    }
}

/// Size bounds and per-directory uniqueness survive every ingestion step:
/// for every directory, the accessed and modified byte counts stay at or
/// below the total (all three are unsigned, hence nonnegative), and no
/// directory is ever rolled up twice.
pub proof fn lemma_ingest_keeps_bounds(m: AnalysisV, pid: u64, line: Seq<u8>)
    requires
        dirs_inv(m.dirs),
    ensures
        dirs_inv(spec_ingest(m, pid, line).dirs),
        all_stats_wf(spec_ingest(m, pid, line).dirs),
{
    match parse_line_spec(line) {
        LineV::Malformed => {},
        LineV::Skipped => {},
        LineV::Unfinished { name, partial, ts } => {},
        LineV::Resumed { name, tail, ret, ts } => {
            match crate::engine::pc_find(m.pending, pid) {
                Some(pc) => {
                    if pc.name == name {
                        let m1 = crate::engine::with_diag(
                            m,
                            crate::engine::Diagnostics {
                                lines_total: crate::engine::bump(m.diag.lines_total),
                                ..m.diag
                            },
                        );
                        let m2 = AnalysisV {
                            pending: crate::engine::pc_remove(m1.pending, pid),
                            ..m1
                        };
                        let ets = if pc.ts is Some {
                            pc.ts
                        } else {
                            ts
                        };
                        lemma_event_inv(
                            m2,
                            pid,
                            name,
                            crate::parser::spec_split_args(pc.partial.add(tail)),
                            ret,
                            ets,
                        );
                    }
                },
                None => {},
            }
        },
        LineV::Call { name, args, ret, ts } => {
            let m1 = crate::engine::with_diag(
                m,
                crate::engine::Diagnostics {
                    lines_total: crate::engine::bump(m.diag.lines_total),
                    ..m.diag
                },
            );
            lemma_event_inv(m1, pid, name, args, ret, ts);
        },
    }
}

/// A whole run: trace lines, each tagged with its process id, ingested in
/// order.
pub open spec fn spec_run(m: AnalysisV, lines: Seq<(u64, Seq<u8>)>) -> AnalysisV
    decreases lines.len(),
{
    if lines.len() == 0 {
        m
    } else {
        spec_run(spec_ingest(m, lines[0].0, lines[0].1), lines.drop_first())
    }
}

/// The size bounds hold of every directory after any run that starts from a
/// table satisfying them — in particular from the empty table of a fresh
/// session.
pub proof fn lemma_run_keeps_bounds(m: AnalysisV, lines: Seq<(u64, Seq<u8>)>)
    requires
        dirs_inv(m.dirs),
    ensures
        dirs_inv(spec_run(m, lines).dirs),
        all_stats_wf(spec_run(m, lines).dirs),
    decreases lines.len(),
{
    if lines.len() > 0 {
        lemma_ingest_keeps_bounds(m, lines[0].0, lines[0].1);
        lemma_run_keeps_bounds(spec_ingest(m, lines[0].0, lines[0].1), lines.drop_first());
    }
}

/// An element of a sequence's multiset stands at some index.
proof fn lemma_elem_index(s: Seq<StatsV>, x: StatsV)
    requires
        s.to_multiset().count(x) > 0,
    ensures
        exists|j: int| 0 <= j < s.len() && s[j] == x,
{
    broadcast use vstd::seq_lib::group_to_multiset_ensures;

    assert(s.contains(x));
}

/// Sorting keeps the rollup invariant: the sorted report holds exactly the
/// table's entries.
pub proof fn lemma_sort_keeps_inv(s: Seq<StatsV>)
    requires
        dirs_inv(s),
    ensures
        dirs_inv(spec_sort(s)),
        all_stats_wf(spec_sort(s)),
{
    broadcast use vstd::seq_lib::group_to_multiset_ensures;

    lemma_sort_spec(s);
    let t = spec_sort(s);
    assert forall|i: int| 0 <= i < t.len() implies crate::agg::stats_wf(#[trigger] t[i]) by {
        assert(t.contains(t[i]));
        assert(t.to_multiset().count(t[i]) > 0);
        lemma_elem_index(s, t[i]);
    }
    assert forall|i: int, j: int| 0 <= i < j < t.len() implies (#[trigger] t[i].path)
        != (#[trigger] t[j].path) by {
        assert(t.contains(t[i]) && t.contains(t[j]));
        assert(t.to_multiset().count(t[i]) > 0 && t.to_multiset().count(t[j]) > 0);
        lemma_elem_index(s, t[i]);
        lemma_elem_index(s, t[j]);
        let a = choose|a: int| 0 <= a < s.len() && s[a] == t[i];
        let b = choose|b: int| 0 <= b < s.len() && s[b] == t[j];
        if t[i] == t[j] {
            // the same entry would stand at two places: its count is at
            // least two, impossible in a table with unique paths
            assert(t.remove(i).to_multiset() =~= t.to_multiset().remove(t[i]));
            assert(t.remove(i)[j - 1] == t[j]);
            assert(t.remove(i).contains(t[j]));
            assert(t.remove(i).to_multiset().count(t[j]) > 0);
            assert(s.to_multiset().count(t[i]) >= 2);
            assert(s.remove(a).to_multiset() =~= s.to_multiset().remove(s[a]));
            assert(s.remove(a).to_multiset().count(t[i]) > 0);
            lemma_elem_index(s.remove(a), t[i]);
            let c = choose|c: int| 0 <= c < s.remove(a).len() && s.remove(a)[c] == t[i];
            if c < a {
                assert(s[c] == t[i]);
                assert(s[c].path == s[a].path);
            } else {
                assert(s[c + 1] == t[i]);
                assert(s[c + 1].path == s[a].path);
            }
        } else {
            assert(a != b);
            assert(s[a].path != s[b].path);
        }
    }
}

/// Two sorted reports with unique paths and the same contents are the same
/// sequence.
proof fn lemma_sorted_unique(a: Seq<StatsV>, b: Seq<StatsV>)
    requires
        stats_sorted(a),
        stats_sorted(b),
        paths_unique(a),
        paths_unique(b),
        a.to_multiset() == b.to_multiset(),
    ensures
        a == b,
    decreases a.len(),
{
    broadcast use vstd::seq_lib::group_to_multiset_ensures;

    if a.len() == 0 {
        assert(b.to_multiset().len() == 0);
        assert(a =~= b);
    } else {
        assert(a.contains(a[0]));
        assert(b.to_multiset().count(a[0]) > 0);
        lemma_elem_index(b, a[0]);
        let i = choose|i: int| 0 <= i < b.len() && b[i] == a[0];
        assert(b.contains(b[0]));
        assert(a.to_multiset().count(b[0]) > 0);
        lemma_elem_index(a, b[0]);
        let j = choose|j: int| 0 <= j < a.len() && a[j] == b[0];
        if i > 0 && j > 0 {
            assert(lex_le(b[0].path, b[i].path));
            assert(lex_le(a[0].path, a[j].path));
            assert(a[0].path.take(0) =~= b[0].path.take(0));
            lemma_lex_antisym(a[0].path, b[0].path, 0);
            assert(a[j].path == a[0].path);
            assert(false);
        }
        assert(a[0] == b[0]);
        assert(a.remove(0).to_multiset() =~= a.to_multiset().remove(a[0]));
        assert(b.remove(0).to_multiset() =~= b.to_multiset().remove(b[0]));
        assert(a.remove(0) =~= a.drop_first());
        assert(b.remove(0) =~= b.drop_first());
        assert(stats_sorted(a.drop_first()));
        assert(stats_sorted(b.drop_first()));
        assert(paths_unique(a.drop_first()));
        assert(paths_unique(b.drop_first()));
        lemma_sorted_unique(a.drop_first(), b.drop_first());
        assert(a.len() == b.len());
        assert forall|k: int| 0 <= k < a.len() implies a[k] == b[k] by {
            if k > 0 {
                assert(a[k] == a.drop_first()[k - 1]);
                assert(b[k] == b.drop_first()[k - 1]);
            }
        }
        assert(a =~= b);
    }
}

/// Deterministic ordering: two rollup tables that hold the same entries —
/// in whatever accumulation order — sort to identical report sequences.
pub proof fn lemma_report_deterministic(d1: Seq<StatsV>, d2: Seq<StatsV>)
    requires
        dirs_inv(d1),
        dirs_inv(d2),
        d1.to_multiset() == d2.to_multiset(),
    ensures
        spec_sort(d1) == spec_sort(d2),
{
    lemma_sort_spec(d1);
    lemma_sort_spec(d2);
    lemma_sort_keeps_inv(d1);
    lemma_sort_keeps_inv(d2);
    lemma_sorted_unique(spec_sort(d1), spec_sort(d2));
}

} // verus!
