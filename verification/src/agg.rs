//! The directory aggregator: folds classified file touches into
//! per-directory rollups and emits them in a canonical order.
//!
//! Sizes use saturating 64-bit arithmetic. `total_size_bytes` counts every
//! byte observed in a sized event for the directory; `accessed_size_bytes`
//! counts read bytes and `modified_size_bytes` written bytes, so both are
//! bounded by the total. A directory's activity window is the span between
//! the earliest and the latest real timestamp observed for it; records
//! without a timestamp never contribute to the window (an event counter
//! orders them but says nothing about age). By default a record is charged
//! to its immediate parent directory only; full ancestor roll-up is a
//! configuration option.

use vstd::prelude::*;
use crate::parser::cap64;
use vstd::slice::{slice_subrange, slice_to_vec};

verus! {

/// Final classification of one file touch.
#[derive(PartialEq, Eq, Structural, Clone, Copy, Debug)]
pub enum Kind {
    Accessed,
    Modified,
    Created,
    Deleted,
}

/// Size and age statistics of one directory.
pub struct DirStats {
    pub path: Vec<u8>,
    pub total: u64,
    pub accessed: u64,
    pub modified: u64,
    pub first_ts: Option<u64>,
    pub last_ts: Option<u64>,
}

/// The mathematical value of a [`DirStats`].
#[verifier::ext_equal]
pub struct StatsV {
    pub path: Seq<u8>,
    pub total: u64,
    pub accessed: u64,
    pub modified: u64,
    pub first_ts: Option<u64>,
    pub last_ts: Option<u64>,
}

impl View for DirStats {
    type V = StatsV;

    open spec fn view(&self) -> StatsV {
        StatsV {
            path: self.path@,
            total: self.total,
            accessed: self.accessed,
            modified: self.modified,
            first_ts: self.first_ts,
            last_ts: self.last_ts,
        }
    }
}

pub open spec fn stats_views(s: Seq<DirStats>) -> Seq<StatsV> {
    s.map_values(|d: DirStats| d@)
}

/// Accessed and modified sizes never exceed the total.
pub open spec fn stats_wf(s: StatsV) -> bool {
    s.accessed <= s.total && s.modified <= s.total
}

pub open spec fn empty_stats(path: Seq<u8>) -> StatsV {
    StatsV { path, total: 0, accessed: 0, modified: 0, first_ts: None, last_ts: None }
}

/// One touch folded into a directory's statistics.
pub open spec fn upd_stats(s: StatsV, k: Kind, delta: Option<u64>, ts: Option<u64>) -> StatsV {
    let d: u64 = match delta {
        Some(x) => x,
        None => 0,
    };
    StatsV {
        path: s.path,
        total: cap64(s.total + d) as u64,
        accessed: if k == Kind::Accessed {
            cap64(s.accessed + d) as u64
        } else {
            s.accessed
        },
        modified: if k == Kind::Modified {
            cap64(s.modified + d) as u64
        } else {
            s.modified
        },
        first_ts: match (s.first_ts, ts) {
            (None, x) => x,
            (Some(f), None) => Some(f),
            (Some(f), Some(t)) => Some(if t < f {
                t
            } else {
                f
            }),
        },
        last_ts: match (s.last_ts, ts) {
            (None, x) => x,
            (Some(l), None) => Some(l),
            (Some(l), Some(t)) => Some(if t > l {
                t
            } else {
                l
            }),
        },
    }
}

/// Folding a touch preserves the bound of accessed and modified sizes by the
/// total.
pub proof fn lemma_upd_stats_wf(s: StatsV, k: Kind, delta: Option<u64>, ts: Option<u64>)
    requires
        stats_wf(s),
    ensures
        stats_wf(upd_stats(s, k, delta, ts)),
{
}

/// Folding one touch for directory `dir` into the rollup table: the matching
/// entry is updated, or a fresh one appended.
pub open spec fn spec_fold(
    s: Seq<StatsV>,
    dir: Seq<u8>,
    k: Kind,
    delta: Option<u64>,
    ts: Option<u64>,
) -> Seq<StatsV>
    decreases s.len(),
{
    if s.len() == 0 {
        seq![upd_stats(empty_stats(dir), k, delta, ts)]
    } else if s[0].path == dir {
        seq![upd_stats(s[0], k, delta, ts)].add(s.drop_first())
    } else {
        seq![s[0]].add(spec_fold(s.drop_first(), dir, k, delta, ts))
    }
}

pub open spec fn all_stats_wf(s: Seq<StatsV>) -> bool {
    forall|i: int| 0 <= i < s.len() ==> stats_wf(#[trigger] s[i])
}

/// Every entry of a rollup built by folding well-formed entries stays
/// well-formed: accessed and modified sizes never exceed the total.
pub proof fn lemma_fold_wf(s: Seq<StatsV>, dir: Seq<u8>, k: Kind, delta: Option<u64>, ts: Option<
    u64,
>)
    requires
        all_stats_wf(s),
    ensures
        all_stats_wf(spec_fold(s, dir, k, delta, ts)),
    decreases s.len(),
{
    if s.len() == 0 {
        lemma_upd_stats_wf(empty_stats(dir), k, delta, ts);
    } else if s[0].path == dir {
        lemma_upd_stats_wf(s[0], k, delta, ts);
        assert forall|i: int|
            0 <= i < spec_fold(s, dir, k, delta, ts).len() implies stats_wf(
            #[trigger] spec_fold(s, dir, k, delta, ts)[i],
        ) by {
            if i > 0 {
                assert(spec_fold(s, dir, k, delta, ts)[i] == s[i]);
            }
        }
    } else {
        assert(all_stats_wf(s.drop_first()));
        lemma_fold_wf(s.drop_first(), dir, k, delta, ts);
        assert forall|i: int|
            0 <= i < spec_fold(s, dir, k, delta, ts).len() implies stats_wf(
            #[trigger] spec_fold(s, dir, k, delta, ts)[i],
        ) by {
            if i > 0 {
                assert(spec_fold(s, dir, k, delta, ts)[i] == spec_fold(
                    s.drop_first(),
                    dir,
                    k,
                    delta,
                    ts,
                )[i - 1]);
            }
        }
    }
}

fn sat_add(a: u64, b: u64) -> (r: u64)
    ensures
        r == cap64(a + b),
{
    if a <= u64::MAX - b {
        a + b
    } else {
        u64::MAX
    }
}

fn upd_exec(s: &mut DirStats, k: Kind, delta: Option<u64>, ts: Option<u64>)
    ensures
        final(s)@ == upd_stats(old(s)@, k, delta, ts),
{
    let d: u64 = match delta {
        Some(x) => x,
        None => 0,
    };
    s.total = sat_add(s.total, d);
    if k == Kind::Accessed {
        s.accessed = sat_add(s.accessed, d);
    }
    if k == Kind::Modified {
        s.modified = sat_add(s.modified, d);
    }
    s.first_ts = match (s.first_ts, ts) {
        (None, x) => x,
        (Some(f), None) => Some(f),
        (Some(f), Some(t)) => Some(if t < f {
            t
        } else {
            f
        }),
    };
    s.last_ts = match (s.last_ts, ts) {
        (None, x) => x,
        (Some(l), None) => Some(l),
        (Some(l), Some(t)) => Some(if t > l {
            t
        } else {
            l
        }),
    };
    proof {
        assert(final(s)@ =~= upd_stats(old(s)@, k, delta, ts));
    }
}

fn stats_copy(s: &DirStats) -> (r: DirStats)
    ensures
        r@ == s@,
{
    let r = DirStats {
        path: slice_to_vec(s.path.as_slice()),
        total: s.total,
        accessed: s.accessed,
        modified: s.modified,
        first_ts: s.first_ts,
        last_ts: s.last_ts,
    };
    proof {
        assert(r@ =~= s@);
    }
    r
}

fn fold_rec(s: &[DirStats], dir: &[u8], k: Kind, delta: Option<u64>, ts: Option<u64>) -> (r: Vec<
    DirStats,
>)
    ensures
        stats_views(r@) == spec_fold(stats_views(s@), dir@, k, delta, ts),
    decreases s@.len(),
{
    if s.len() == 0 {
        let mut fresh = DirStats {
            path: slice_to_vec(dir),
            total: 0,
            accessed: 0,
            modified: 0,
            first_ts: None,
            last_ts: None,
        };
        proof {
            assert(fresh@ =~= empty_stats(dir@));
        }
        upd_exec(&mut fresh, k, delta, ts);
        let mut r: Vec<DirStats> = Vec::new();
        r.push(fresh);
        proof {
            assert(stats_views(r@) =~= spec_fold(stats_views(s@), dir@, k, delta, ts));
        }
        r
    } else if crate::bytes::eq_bytes(s[0].path.as_slice(), dir) {
        let mut head = stats_copy(&s[0]);
        upd_exec(&mut head, k, delta, ts);
        let rest = slice_subrange(s, 1, s.len());
        let mut r = stats_copy_all(rest);
        r.insert(0, head);
        proof {
            assert(stats_views(rest@) =~= stats_views(s@).drop_first());
            assert(stats_views(r@) =~= seq![upd_stats(stats_views(s@)[0], k, delta, ts)].add(
                stats_views(s@).drop_first(),
            ));
        }
        r
    } else {
        let rest = slice_subrange(s, 1, s.len());
        proof {
            assert(stats_views(rest@) =~= stats_views(s@).drop_first());
        }
        let mut tail = fold_rec(rest, dir, k, delta, ts);
        tail.insert(0, stats_copy(&s[0]));
        proof {
            assert(stats_views(tail@) =~= seq![stats_views(s@)[0]].add(
                spec_fold(stats_views(s@).drop_first(), dir@, k, delta, ts),
            ));
        }
        tail
    }
}

fn stats_copy_all(s: &[DirStats]) -> (r: Vec<DirStats>)
    ensures
        stats_views(r@) == stats_views(s@),
{
    let mut r: Vec<DirStats> = Vec::new();
    let mut i: usize = 0;
    while i < s.len()
        invariant
            0 <= i <= s@.len(),
            r@.len() == i as int,
            stats_views(r@) =~= stats_views(s@.take(i as int)),
        decreases s@.len() - i,
    {
        let c = stats_copy(&s[i]);
        let ghost prev = r@;
        r.push(c);
        proof {
            assert forall|k: int| 0 <= k < r@.len() implies stats_views(r@)[k] == stats_views(
                s@.take(i as int + 1),
            )[k] by {
                assert(r@ == prev.push(c));
                if k < i as int {
                    assert(r@[k] == prev[k]);
                    assert(stats_views(prev)[k] == stats_views(s@.take(i as int))[k]);
                    assert(s@.take(i as int + 1)[k] == s@.take(i as int)[k]);
                } else {
                    assert(r@[k] == c);
                    assert(s@.take(i as int + 1)[k] == s@[i as int]);
                }
            }
            assert(stats_views(r@) =~= stats_views(s@.take(i as int + 1)));
        }
        i = i + 1;
    }
    proof {
        assert(s@.take(s@.len() as int) =~= s@);
    }
    r
}

/// The rollup table: one statistics entry per directory observed so far.
pub struct Aggregator {
    pub dirs: Vec<DirStats>,
}

impl View for Aggregator {
    type V = Seq<StatsV>;

    open spec fn view(&self) -> Seq<StatsV> {
        stats_views(self.dirs@)
    }
}

impl Aggregator {
    pub fn new() -> (r: Aggregator)
        ensures
            r@ == Seq::<StatsV>::empty(),
    {
        let r = Aggregator { dirs: Vec::new() };
        proof {
            assert(r@ =~= Seq::<StatsV>::empty());
        }
        r
    }

    /// Folds one touch of directory `dir` into the table.
    pub fn fold(&mut self, dir: &[u8], k: Kind, delta: Option<u64>, ts: Option<u64>)
        ensures
            final(self)@ == spec_fold(old(self)@, dir@, k, delta, ts),
    {
        self.dirs = fold_rec(self.dirs.as_slice(), dir, k, delta, ts);
    }
}

// ---------------------------------------------------------------------------
// Parent directories and ancestor chains.
// ---------------------------------------------------------------------------

/// Rightmost position below `j` holding byte `b`.
pub open spec fn spec_rfind(s: Seq<u8>, j: int, b: u8) -> Option<int>
    decreases j,
{
    if j <= 0 || j > s.len() {
        None
    } else if s[j - 1] == b {
        Some(j - 1)
    } else {
        spec_rfind(s, j - 1, b)
    }
}

pub fn rfind(s: &[u8], j: usize, b: u8) -> (r: Option<usize>)
    requires
        j <= s@.len(),
    ensures
        match r {
            Some(i) => spec_rfind(s@, j as int, b) == Some(i as int) && i < j,
            None => spec_rfind(s@, j as int, b) is None,
        },
    decreases j,
{
    if j == 0 {
        None
    } else if s[j - 1] == b {
        Some(j - 1)
    } else {
        rfind(s, j - 1, b)
    }
}

/// The parent directory of an absolute path: the bytes before the last `/`,
/// or the root itself for paths directly under it; a path without `/` has no
/// parent.
pub open spec fn spec_parent_dir(p: Seq<u8>) -> Option<Seq<u8>> {
    match spec_rfind(p, p.len() as int, 47) {
        Some(j) => if j == 0 {
            Some(seq![47u8])
        } else {
            Some(p.take(j))
        },
        None => None,
    }
}

pub fn parent_dir(p: &[u8]) -> (r: Option<Vec<u8>>)
    ensures
        match r {
            Some(d) => spec_parent_dir(p@) == Some(d@),
            None => spec_parent_dir(p@) is None,
        },
{
    match rfind(p, p.len(), 47) {
        Some(j) => {
            if j == 0 {
                let mut d: Vec<u8> = Vec::new();
                d.push(47);
                proof {
                    assert(d@ =~= seq![47u8]);
                }
                Some(d)
            } else {
                Some(slice_to_vec(slice_subrange(p, 0, j)))
            }
        },
        None => None,
    }
}

/// The chain of ancestor directories of a path, nearest first, ending at the
/// root.
pub open spec fn spec_ancestors(p: Seq<u8>) -> Seq<Seq<u8>>
    decreases p.len(),
{
    match spec_parent_dir(p) {
        None => Seq::empty(),
        Some(d) => if d.len() < p.len() {
            seq![d].add(spec_ancestors(d))
        } else {
            Seq::empty()
        },
    }
}

pub fn ancestors(p: &[u8]) -> (r: Vec<Vec<u8>>)
    ensures
        crate::bytes::byte_views(r@) == spec_ancestors(p@),
    decreases p@.len(),
{
    match parent_dir(p) {
        None => {
            let r: Vec<Vec<u8>> = Vec::new();
            proof {
                assert(crate::bytes::byte_views(r@) =~= spec_ancestors(p@));
            }
            r
        },
        Some(d) => {
            if d.len() < p.len() {
                let mut tail = ancestors(d.as_slice());
                tail.insert(0, d);
                proof {
                    assert(crate::bytes::byte_views(tail@) =~= spec_ancestors(p@));
                }
                tail
            } else {
                let r: Vec<Vec<u8>> = Vec::new();
                proof {
                    assert(crate::bytes::byte_views(r@) =~= spec_ancestors(p@));
                }
                r
            }
        },
    }
}

// ---------------------------------------------------------------------------
// Canonical ordering of the report.
// ---------------------------------------------------------------------------

/// Lexicographic byte order, comparing from position `i`.
pub open spec fn lex_le_from(a: Seq<u8>, b: Seq<u8>, i: int) -> bool
    decreases a.len() - i,
{
    if i < 0 {
        false
    } else if i >= a.len() {
        true
    } else if i >= b.len() {
        false
    } else if a[i] < b[i] {
        true
    } else if a[i] > b[i] {
        false
    } else {
        lex_le_from(a, b, i + 1)
    }
}

/// Lexicographic byte order on paths.
pub open spec fn lex_le(a: Seq<u8>, b: Seq<u8>) -> bool {
    lex_le_from(a, b, 0)
}

fn lex_le_rec(a: &[u8], b: &[u8], i: usize) -> (r: bool)
    requires
        i <= a@.len(),
        i <= b@.len(),
    ensures
        r == lex_le_from(a@, b@, i as int),
    decreases a@.len() - i,
{
    if i >= a.len() {
        true
    } else if i >= b.len() {
        false
    } else if a[i] < b[i] {
        true
    } else if a[i] > b[i] {
        false
    } else {
        lex_le_rec(a, b, i + 1)
    }
}

/// Compares two paths lexicographically.
pub fn lex_le_bytes(a: &[u8], b: &[u8]) -> (r: bool)
    ensures
        r == lex_le(a@, b@),
{
    lex_le_rec(a, b, 0)
}

/// Lexicographic order is total.
pub proof fn lemma_lex_total(a: Seq<u8>, b: Seq<u8>, i: int)
    requires
        0 <= i,
    ensures
        lex_le_from(a, b, i) || lex_le_from(b, a, i),
    decreases a.len() - i,
{
    if i < a.len() && i < b.len() && a[i] == b[i] {
        lemma_lex_total(a, b, i + 1);
    }
}

/// Lexicographic order is transitive.
pub proof fn lemma_lex_trans(a: Seq<u8>, b: Seq<u8>, c: Seq<u8>, i: int)
    requires
        0 <= i,
        lex_le_from(a, b, i),
        lex_le_from(b, c, i),
    ensures
        lex_le_from(a, c, i),
    decreases a.len() - i,
{
    if i < a.len() && i < b.len() && i < c.len() && a[i] == b[i] && b[i] == c[i] {
        lemma_lex_trans(a, b, c, i + 1);
    }
}

/// Lexicographic order is antisymmetric.
pub proof fn lemma_lex_antisym(a: Seq<u8>, b: Seq<u8>, i: int)
    requires
        0 <= i <= a.len(),
        0 <= i <= b.len(),
        lex_le_from(a, b, i),
        lex_le_from(b, a, i),
        a.take(i) == b.take(i),
    ensures
        a == b,
    decreases a.len() - i,
{
    if i >= a.len() {
        assert(i >= b.len());
        assert(a.take(i) =~= a);
        assert(b.take(i) =~= b);
    } else {
        assert(i < b.len());
        assert(a[i] == b[i]);
        assert(a.take(i + 1) =~= a.take(i).push(a[i]));
        assert(b.take(i + 1) =~= b.take(i).push(b[i]));
        lemma_lex_antisym(a, b, i + 1);
    }
}

/// The report order: entries sorted by path.
pub open spec fn stats_sorted(s: Seq<StatsV>) -> bool {
    forall|i: int, j: int|
        0 <= i < j < s.len() ==> lex_le(#[trigger] s[i].path, #[trigger] s[j].path)
}

/// Inserting an entry into a run sorted by path.
pub open spec fn spec_ins_sorted(s: Seq<StatsV>, x: StatsV) -> Seq<StatsV>
    decreases s.len(),
{
    if s.len() == 0 {
        seq![x]
    } else if lex_le(x.path, s[0].path) {
        seq![x].add(s)
    } else {
        seq![s[0]].add(spec_ins_sorted(s.drop_first(), x))
    }
}

/// Sorting a rollup table by path.
pub open spec fn spec_sort(s: Seq<StatsV>) -> Seq<StatsV>
    decreases s.len(),
{
    if s.len() == 0 {
        s
    } else {
        spec_ins_sorted(spec_sort(s.drop_first()), s[0])
    }
}

/// Every element of an insertion result is the inserted entry or one of the
/// run's own.
pub proof fn lemma_ins_elems(s: Seq<StatsV>, x: StatsV)
    ensures
        spec_ins_sorted(s, x).len() == s.len() + 1,
        forall|k: int|
            0 <= k < spec_ins_sorted(s, x).len() ==> (#[trigger] spec_ins_sorted(s, x)[k] == x
                || s.contains(spec_ins_sorted(s, x)[k])),
    decreases s.len(),
{
    if s.len() == 0 {
    } else if lex_le(x.path, s[0].path) {
    } else {
        lemma_ins_elems(s.drop_first(), x);
        assert forall|k: int|
            0 <= k < spec_ins_sorted(s, x).len() implies (#[trigger] spec_ins_sorted(s, x)[k] == x
            || s.contains(spec_ins_sorted(s, x)[k])) by {
            if k == 0 {
                assert(s.contains(s[0]));
            } else {
                let e = spec_ins_sorted(s, x)[k];
                assert(e == spec_ins_sorted(s.drop_first(), x)[k - 1]);
                if e != x {
                    assert(s.drop_first().contains(e));
                    let m = choose|m: int| 0 <= m < s.drop_first().len() && s.drop_first()[m] == e;
                    assert(s[m + 1] == e);
                }
            }
        }
    }
}

/// Insertion keeps the run sorted.
pub proof fn lemma_ins_sorted(s: Seq<StatsV>, x: StatsV)
    requires
        stats_sorted(s),
    ensures
        stats_sorted(spec_ins_sorted(s, x)),
    decreases s.len(),
{
    if s.len() == 0 {
    } else if lex_le(x.path, s[0].path) {
        let r = seq![x].add(s);
        assert forall|i: int, j: int| 0 <= i < j < r.len() implies lex_le(
            #[trigger] r[i].path,
            #[trigger] r[j].path,
        ) by {
            if i == 0 {
                if j == 1 {
                } else {
                    lemma_lex_trans(x.path, s[0].path, s[j - 1].path, 0);
                }
            }
        }
    } else {
        lemma_lex_total(x.path, s[0].path, 0);
        assert(stats_sorted(s.drop_first()));
        lemma_ins_sorted(s.drop_first(), x);
        lemma_ins_elems(s.drop_first(), x);
        let r = seq![s[0]].add(spec_ins_sorted(s.drop_first(), x));
        assert forall|i: int, j: int| 0 <= i < j < r.len() implies lex_le(
            #[trigger] r[i].path,
            #[trigger] r[j].path,
        ) by {
            if i == 0 {
                let e = spec_ins_sorted(s.drop_first(), x)[j - 1];
                if e == x {
                } else {
                    assert(s.drop_first().contains(e));
                    let m = choose|m: int|
                        0 <= m < s.drop_first().len() && s.drop_first()[m] == e;
                    assert(s[m + 1] == e);
                }
            } else {
                assert(r[i] == spec_ins_sorted(s.drop_first(), x)[i - 1]);
                assert(r[j] == spec_ins_sorted(s.drop_first(), x)[j - 1]);
            }
        }
    }
}

/// Insertion adds exactly the inserted entry to the run's contents.
pub proof fn lemma_ins_multiset(s: Seq<StatsV>, x: StatsV)
    ensures
        spec_ins_sorted(s, x).to_multiset() =~= s.to_multiset().insert(x),
    decreases s.len(),
{
    broadcast use vstd::seq_lib::group_to_multiset_ensures;

    if s.len() == 0 {
        assert(spec_ins_sorted(s, x) =~= s.push(x));
    } else if lex_le(x.path, s[0].path) {
        vstd::seq_lib::lemma_multiset_commutative(seq![x], s);
        assert(seq![x] =~= Seq::<StatsV>::empty().push(x));
    } else {
        lemma_ins_multiset(s.drop_first(), x);
        vstd::seq_lib::lemma_multiset_commutative(seq![s[0]], spec_ins_sorted(s.drop_first(), x));
        vstd::seq_lib::lemma_multiset_commutative(seq![s[0]], s.drop_first());
        assert(s =~= seq![s[0]].add(s.drop_first()));
        assert(seq![s[0]] =~= Seq::<StatsV>::empty().push(s[0]));
    }
}

/// The sorted rollup holds exactly the entries of the unsorted one, in
/// lexicographic path order: the emission order is canonical, independent of
/// the order in which directories were first touched.
pub proof fn lemma_sort_spec(s: Seq<StatsV>)
    ensures
        stats_sorted(spec_sort(s)),
        spec_sort(s).to_multiset() =~= s.to_multiset(),
    decreases s.len(),
{
    broadcast use vstd::seq_lib::group_to_multiset_ensures;

    if s.len() > 0 {
        lemma_sort_spec(s.drop_first());
        lemma_ins_sorted(spec_sort(s.drop_first()), s[0]);
        lemma_ins_multiset(spec_sort(s.drop_first()), s[0]);
        vstd::seq_lib::lemma_multiset_commutative(seq![s[0]], s.drop_first());
        assert(s =~= seq![s[0]].add(s.drop_first()));
        assert(seq![s[0]] =~= Seq::<StatsV>::empty().push(s[0]));
    }
}

fn ins_sorted(s: &[DirStats], x: DirStats) -> (r: Vec<DirStats>)
    ensures
        stats_views(r@) == spec_ins_sorted(stats_views(s@), x@),
    decreases s@.len(),
{
    if s.len() == 0 {
        let mut r: Vec<DirStats> = Vec::new();
        r.push(x);
        proof {
            assert(stats_views(r@) =~= spec_ins_sorted(stats_views(s@), x@));
        }
        r
    } else if lex_le_bytes(x.path.as_slice(), s[0].path.as_slice()) {
        let mut r = stats_copy_all(s);
        r.insert(0, x);
        proof {
            assert(stats_views(r@) =~= seq![stats_views(r@)[0]].add(stats_views(s@)));
        }
        r
    } else {
        let rest = slice_subrange(s, 1, s.len());
        proof {
            assert(stats_views(rest@) =~= stats_views(s@).drop_first());
        }
        let mut tail = ins_sorted(rest, x);
        tail.insert(0, stats_copy(&s[0]));
        proof {
            assert(stats_views(tail@) =~= seq![stats_views(s@)[0]].add(
                spec_ins_sorted(stats_views(s@).drop_first(), x@),
            ));
        }
        tail
    }
}

/// Sorts a rollup table by directory path.
pub fn sort_stats(s: &[DirStats]) -> (r: Vec<DirStats>)
    ensures
        stats_views(r@) == spec_sort(stats_views(s@)),
    decreases s@.len(),
{
    if s.len() == 0 {
        let r: Vec<DirStats> = Vec::new();
        proof {
            assert(stats_views(r@) =~= spec_sort(stats_views(s@)));
        }
        r
    } else {
        let rest = slice_subrange(s, 1, s.len());
        proof {
            assert(stats_views(rest@) =~= stats_views(s@).drop_first());
        }
        let tail = sort_stats(rest);
        ins_sorted(tail.as_slice(), stats_copy(&s[0]))
    }
}

} // verus!
