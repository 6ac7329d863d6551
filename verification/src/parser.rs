//! The record parser: one raw trace line in, one structured result out.
//!
//! # Grammar
//!
//! A trace file holds one record per line. The engine recognizes, in order:
//!
//! * an optional leading timestamp field: `SECS` or `SECS.FRAC` (decimal
//!   digits), terminated by a single space; a line is taken to start with a
//!   timestamp exactly when its first byte is a digit (syscall names never
//!   start with one). The value is converted to microseconds, saturating at
//!   `u64::MAX`; fractions beyond six digits are truncated.
//! * signal-delivery lines (`--- SIGCHLD ... ---`) and exit lines
//!   (`+++ exited with 0 +++`), which are skipped, never errors;
//! * resumed continuations: `<... NAME resumed> TAIL ) = RET`;
//! * interrupted calls: `NAME(PARTIAL <unfinished ...>`;
//! * completed calls: `NAME(ARGS) = RET [trailer]`, where `RET` is a decimal
//!   integer with optional sign, optionally followed by a trailer that starts
//!   with a space or `<` (error names, durations); a return field of `?`
//!   (call never returned) is skipped.
//!
//! Argument lists are split on commas at bracket depth zero; quoted strings
//! (with backslash escapes) and `(`/`[`/`{` nesting are respected, and each
//! argument is trimmed of surrounding spaces. Quoted path arguments keep
//! their bytes as written (escape sequences are not decoded); a truncation
//! marker `...` after the closing quote is ignored.
//!
//! Every line that matches none of these productions is malformed: it is
//! counted and skipped, never fatal.

use vstd::prelude::*;
use crate::bytes::{
    all_digits, byte_views, bytes_match_at, dec_val, digits_end, find_from, is_digit,
    lemma_dec_val_nonneg, lemma_dec_val_upper, lemma_digits_end, matches_at, name_end, parse_dec,
    spec_digits_end, spec_find, spec_name_end, trim, trim_bounds,
};
use vstd::slice::{slice_subrange, slice_to_vec};

verus! {

/// First position at or after `i` holding the unescaped closing quote of a
/// string literal.
pub open spec fn spec_str_end(s: Seq<u8>, i: int, esc: bool) -> Option<int>
    decreases s.len() - i,
{
    if i < 0 || i >= s.len() {
        None
    } else if esc {
        spec_str_end(s, i + 1, false)
    } else if s[i] == 92 {
        spec_str_end(s, i + 1, true)
    } else if s[i] == 34 {
        Some(i)
    } else {
        spec_str_end(s, i + 1, false)
    }
}

pub fn str_end(s: &[u8], i: usize, esc: bool) -> (r: Option<usize>)
    requires
        i <= s@.len(),
    ensures
        match r {
            Some(j) => spec_str_end(s@, i as int, esc) == Some(j as int) && i <= j < s@.len(),
            None => spec_str_end(s@, i as int, esc) is None,
        },
    decreases s@.len() - i,
{
    if i >= s.len() {
        None
    } else if esc {
        str_end(s, i + 1, false)
    } else if s[i] == 92 {
        str_end(s, i + 1, true)
    } else if s[i] == 34 {
        Some(i)
    } else {
        str_end(s, i + 1, false)
    }
}

/// The content of a quoted string argument: the bytes between the opening
/// quote and the first unescaped closing quote.
pub open spec fn spec_unquote(s: Seq<u8>) -> Option<Seq<u8>> {
    if s.len() >= 1 && s[0] == 34 {
        match spec_str_end(s, 1, false) {
            Some(j) => Some(s.subrange(1, j)),
            None => None,
        }
    } else {
        None
    }
}

pub fn unquote(s: &[u8]) -> (r: Option<Vec<u8>>)
    ensures
        match r {
            Some(v) => spec_unquote(s@) == Some(v@),
            None => spec_unquote(s@) is None,
        },
{
    if s.len() >= 1 && s[0] == 34 {
        match str_end(s, 1, false) {
            Some(j) => Some(slice_to_vec(slice_subrange(s, 1, j))),
            None => None,
        }
    } else {
        None
    }
}

/// Position of the `)` that closes the argument region, scanning from `i` at
/// bracket depth `depth`, honouring quoted strings and escapes; `(`, `[` and
/// `{` all deepen the nesting.
pub open spec fn spec_close(s: Seq<u8>, i: int, depth: int, instr: bool, esc: bool) -> Option<int>
    decreases s.len() - i,
{
    if i < 0 || i >= s.len() {
        None
    } else if instr {
        if esc {
            spec_close(s, i + 1, depth, true, false)
        } else if s[i] == 92 {
            spec_close(s, i + 1, depth, true, true)
        } else if s[i] == 34 {
            spec_close(s, i + 1, depth, false, false)
        } else {
            spec_close(s, i + 1, depth, true, false)
        }
    } else if s[i] == 34 {
        spec_close(s, i + 1, depth, true, false)
    } else if s[i] == 40 || s[i] == 91 || s[i] == 123 {
        spec_close(s, i + 1, depth + 1, false, false)
    } else if s[i] == 41 && depth == 1 {
        Some(i)
    } else if (s[i] == 41 || s[i] == 93 || s[i] == 125) && depth > 1 {
        spec_close(s, i + 1, depth - 1, false, false)
    } else {
        spec_close(s, i + 1, depth, false, false)
    }
}

pub fn close_from(s: &[u8], i: usize, depth: u128, instr: bool, esc: bool) -> (r: Option<usize>)
    requires
        i <= s@.len(),
        1 <= depth <= i as int + 1,
    ensures
        match r {
            Some(j) => spec_close(s@, i as int, depth as int, instr, esc) == Some(j as int) && i
                <= j < s@.len(),
            None => spec_close(s@, i as int, depth as int, instr, esc) is None,
        },
    decreases s@.len() - i,
{
    if i >= s.len() {
        None
    } else if instr {
        if esc {
            close_from(s, i + 1, depth, true, false)
        } else if s[i] == 92 {
            close_from(s, i + 1, depth, true, true)
        } else if s[i] == 34 {
            close_from(s, i + 1, depth, false, false)
        } else {
            close_from(s, i + 1, depth, true, false)
        }
    } else if s[i] == 34 {
        close_from(s, i + 1, depth, true, false)
    } else if s[i] == 40 || s[i] == 91 || s[i] == 123 {
        close_from(s, i + 1, depth + 1, false, false)
    } else if s[i] == 41 && depth == 1 {
        Some(i)
    } else if (s[i] == 41 || s[i] == 93 || s[i] == 125) && depth > 1 {
        close_from(s, i + 1, depth - 1, false, false)
    } else {
        close_from(s, i + 1, depth, false, false)
    }
}

/// Splits `s[start..]` (scanning from `i`) on commas at bracket depth zero,
/// trimming each piece.
pub open spec fn spec_split_from(
    s: Seq<u8>,
    i: int,
    start: int,
    depth: int,
    instr: bool,
    esc: bool,
) -> Seq<Seq<u8>>
    decreases s.len() - i,
{
    if i < 0 || i >= s.len() {
        seq![trim(s.subrange(start, s.len() as int))]
    } else if instr {
        if esc {
            spec_split_from(s, i + 1, start, depth, true, false)
        } else if s[i] == 92 {
            spec_split_from(s, i + 1, start, depth, true, true)
        } else if s[i] == 34 {
            spec_split_from(s, i + 1, start, depth, false, false)
        } else {
            spec_split_from(s, i + 1, start, depth, true, false)
        }
    } else if s[i] == 34 {
        spec_split_from(s, i + 1, start, depth, true, false)
    } else if s[i] == 40 || s[i] == 91 || s[i] == 123 {
        spec_split_from(s, i + 1, start, depth + 1, false, false)
    } else if (s[i] == 41 || s[i] == 93 || s[i] == 125) && depth > 0 {
        spec_split_from(s, i + 1, start, depth - 1, false, false)
    } else if s[i] == 44 && depth == 0 {
        seq![trim(s.subrange(start, i))].add(spec_split_from(s, i + 1, i + 1, 0, false, false))
    } else {
        spec_split_from(s, i + 1, start, depth, false, false)
    }
}

/// The argument list of a call: empty for a blank argument region, else the
/// comma-split pieces.
pub open spec fn spec_split_args(s: Seq<u8>) -> Seq<Seq<u8>> {
    if trim(s).len() == 0 {
        Seq::<Seq<u8>>::empty()
    } else {
        spec_split_from(s, 0, 0, 0, false, false)
    }
}

fn split_from(s: &[u8], i: usize, start: usize, depth: u128, instr: bool, esc: bool) -> (r: Vec<
    Vec<u8>,
>)
    requires
        start <= i <= s@.len(),
        0 <= depth <= i as int,
    ensures
        byte_views(r@) == spec_split_from(s@, i as int, start as int, depth as int, instr, esc),
    decreases s@.len() - i,
{
    if i >= s.len() {
        let (lo, hi) = trim_bounds(s, start, s.len());
        let piece = slice_to_vec(slice_subrange(s, lo, hi));
        let mut r: Vec<Vec<u8>> = Vec::new();
        r.push(piece);
        proof {
            assert(byte_views(r@) =~= seq![trim(s@.subrange(start as int, s@.len() as int))]);
        }
        r
    } else if instr {
        if esc {
            split_from(s, i + 1, start, depth, true, false)
        } else if s[i] == 92 {
            split_from(s, i + 1, start, depth, true, true)
        } else if s[i] == 34 {
            split_from(s, i + 1, start, depth, false, false)
        } else {
            split_from(s, i + 1, start, depth, true, false)
        }
    } else if s[i] == 34 {
        split_from(s, i + 1, start, depth, true, false)
    } else if s[i] == 40 || s[i] == 91 || s[i] == 123 {
        split_from(s, i + 1, start, depth + 1, false, false)
    } else if (s[i] == 41 || s[i] == 93 || s[i] == 125) && depth > 0 {
        split_from(s, i + 1, start, depth - 1, false, false)
    } else if s[i] == 44 && depth == 0 {
        let (lo, hi) = trim_bounds(s, start, i);
        let piece = slice_to_vec(slice_subrange(s, lo, hi));
        let mut rest = split_from(s, i + 1, i + 1, 0, false, false);
        rest.insert(0, piece);
        proof {
            assert(byte_views(rest@) =~= seq![trim(s@.subrange(start as int, i as int))].add(
                spec_split_from(s@, i as int + 1, i as int + 1, 0, false, false),
            ));
        }
        rest
    } else {
        split_from(s, i + 1, start, depth, false, false)
    }
}

/// Splits an argument region into its trimmed arguments.
pub fn split_args(s: &[u8]) -> (r: Vec<Vec<u8>>)
    ensures
        byte_views(r@) == spec_split_args(s@),
{
    let (lo, hi) = trim_bounds(s, 0, s.len());
    proof {
        assert(s@.subrange(0, s@.len() as int) =~= s@);
        assert(trim(s@).len() == hi - lo);
    }
    if lo == hi {
        let r: Vec<Vec<u8>> = Vec::new();
        proof {
            assert(byte_views(r@) =~= Seq::<Seq<u8>>::empty());
        }
        r
    } else {
        split_from(s, 0, 0, 0, false, false)
    }
}

/// Caps a mathematical value at `u64::MAX`.
pub open spec fn cap64(x: int) -> int {
    if x > u64::MAX {
        u64::MAX as int
    } else {
        x
    }
}

/// A fraction field normalized to exactly six digits: truncated, or padded
/// on the right with zeros.
pub open spec fn frac6(f: Seq<u8>) -> Seq<u8> {
    if f.len() >= 6 {
        f.take(6)
    } else {
        f.add(Seq::new((6 - f.len()) as nat, |j: int| 48u8))
    }
}

/// Value in microseconds of a timestamp field `SECS` or `SECS.FRAC`,
/// saturating at `u64::MAX`.
pub open spec fn spec_ts_value(t: Seq<u8>) -> Option<int> {
    match spec_find(t, 0, 46) {
        None => if t.len() > 0 && all_digits(t) {
            Some(cap64(dec_val(t) * 1000000))
        } else {
            None
        },
        Some(d) => {
            let secs = t.take(d);
            let frac = t.subrange(d + 1, t.len() as int);
            if secs.len() > 0 && all_digits(secs) && frac.len() > 0 && all_digits(frac) {
                Some(cap64(dec_val(secs) * 1000000 + dec_val(frac6(frac))))
            } else {
                None
            }
        },
    }
}

pub open spec fn opt_int(o: Option<u64>) -> Option<int> {
    match o {
        Some(v) => Some(v as int),
        None => None,
    }
}

/// Multiplies a seconds count by one million, saturating at `u64::MAX`, and
/// adds a sub-second microsecond count.
fn secs_to_micros(v: u64, f: u64) -> (r: u64)
    requires
        f < 1000000,
    ensures
        r == cap64(v * 1000000 + f),
{
    if v > 18446744073709 {
        assert(v * 1000000 + f > u64::MAX);
        u64::MAX
    } else {
        let p: u64 = v * 1000000;
        if p > u64::MAX - f {
            u64::MAX
        } else {
            p + f
        }
    }
}

/// Parses a timestamp field.
fn ts_value(t: &[u8]) -> (r: Option<u64>)
    ensures
        opt_int(r) == spec_ts_value(t@),
{
    match find_from(t, 0, 46) {
        None => {
            let de = digits_end(t, 0);
            proof {
                lemma_digits_end(t@, 0);
            }
            if t.len() == 0 || de != t.len() {
                proof {
                    if t@.len() > 0 && de < t@.len() {
                        assert(!is_digit(t@[de as int]));
                    }
                }
                return None;
            }
            assert(all_digits(t@));
            match parse_dec(t, 0, t.len()) {
                Some(v) => {
                    proof {
                        assert(t@.subrange(0, t@.len() as int) =~= t@);
                        lemma_dec_val_nonneg(t@);
                    }
                    Some(secs_to_micros(v, 0))
                },
                None => {
                    proof {
                        assert(t@.subrange(0, t@.len() as int) =~= t@);
                        assert(dec_val(t@) > u64::MAX);
                        assert(dec_val(t@) * 1000000 >= dec_val(t@)) by (nonlinear_arith)
                            requires dec_val(t@) > 0;
                    }
                    Some(u64::MAX)
                },
            }
        },
        Some(d) => {
            let n = t.len();
            assert(d < n);
            let ghost secs = t@.take(d as int);
            let ghost frac = t@.subrange(d as int + 1, t@.len() as int);
            let de0 = digits_end(t, 0);
            proof {
                lemma_digits_end(t@, 0);
                crate::bytes::lemma_find(t@, 0, 46);
                assert(t@[d as int] == 46);
            }
            if d == 0 || de0 != d {
                proof {
                    if de0 < d {
                        assert(!is_digit(secs[de0 as int]));
                    }
                }
                return None;
            }
            assert(all_digits(secs));
            let fe = digits_end(t, d + 1);
            proof {
                lemma_digits_end(t@, d as int + 1);
            }
            if d + 1 >= t.len() || fe != t.len() {
                proof {
                    if d as int + 1 < t@.len() && fe < t@.len() {
                        assert(!is_digit(frac[fe - (d as int + 1)]));
                    }
                }
                return None;
            }
            assert(all_digits(frac));
            // Build the six-digit fraction.
            let mut fv: Vec<u8> = Vec::new();
            let mut j: usize = 0;
            while j < 6
                invariant
                    0 <= j <= 6,
                    frac == t@.subrange(d as int + 1, t@.len() as int),
                    d as int + 1 < t@.len() <= usize::MAX,
                    fv@ =~= frac6(frac).take(j as int),
                decreases 6 - j,
            {
                let b: u8 = if j < t.len() - d - 1 {
                    t[d + 1 + j]
                } else {
                    48
                };
                proof {
                    assert(frac6(frac).len() == 6);
                    if frac.len() >= 6 {
                        assert(frac6(frac)[j as int] == frac[j as int]);
                    } else if (j as int) < frac.len() {
                        assert(frac6(frac)[j as int] == frac[j as int]);
                    } else {
                        assert(frac6(frac)[j as int] == 48);
                    }
                    assert(frac6(frac)[j as int] == b);
                    assert(frac6(frac).take(j as int + 1) =~= frac6(frac).take(j as int).push(b));
                }
                fv.push(b);
                j = j + 1;
            }
            proof {
                assert(fv@ =~= frac6(frac));
                assert forall|m: int| 0 <= m < fv@.len() implies is_digit(#[trigger] fv@[m]) by {
                    if frac.len() >= 6 {
                        assert(fv@[m] == frac[m]);
                    } else if m < frac.len() {
                        assert(fv@[m] == frac[m]);
                    } else {
                        assert(fv@[m] == 48);
                    }
                }
                assert(all_digits(fv@));
                lemma_dec_val_upper(fv@);
                reveal_with_fuel(crate::bytes::pow10, 8);
                assert(crate::bytes::pow10(6) == 1000000);
                lemma_dec_val_nonneg(fv@);
            }
            let fvs: &[u8] = fv.as_slice();
            assert(fvs@.subrange(0, 6) =~= fv@);
            let fval = match parse_dec(fvs, 0, 6) {
                Some(x) => x,
                None => {
                    proof {
                        assert(false);
                    }
                    0
                },
            };
            match parse_dec(t, 0, d) {
                Some(v) => {
                    proof {
                        assert(t@.subrange(0, d as int) =~= secs);
                        lemma_dec_val_nonneg(secs);
                    }
                    Some(secs_to_micros(v, fval))
                },
                None => {
                    proof {
                        assert(t@.subrange(0, d as int) =~= secs);
                        assert(dec_val(secs) > u64::MAX);
                        assert(dec_val(secs) * 1000000 >= dec_val(secs)) by (nonlinear_arith)
                            requires dec_val(secs) > 0;
                    }
                    Some(u64::MAX)
                },
            }
        },
    }
}

/// The return-value field after the closing parenthesis at `p - 1`: expects
/// ` = `, then `?` (skipped) or a signed decimal that fits in `i64`,
/// optionally followed by a trailer starting with a space or `<`.
pub open spec fn spec_ret(s: Seq<u8>, p: int) -> Option<Option<int>> {
    if p + 3 > s.len() || p < 0 {
        None
    } else if !(s[p] == 32 && s[p + 1] == 61 && s[p + 2] == 32) {
        None
    } else if p + 3 < s.len() && s[p + 3] == 63 {
        Some(None)
    } else {
        let neg = p + 3 < s.len() && s[p + 3] == 45;
        let d0 = if neg {
            p + 4
        } else {
            p + 3
        };
        let de = spec_digits_end(s, d0);
        if de == d0 {
            None
        } else if !(de == s.len() || s[de] == 32 || s[de] == 60) {
            None
        } else {
            let v = dec_val(s.subrange(d0, de));
            if neg {
                if v <= 0x8000000000000000 {
                    Some(Some(-v))
                } else {
                    None
                }
            } else {
                if v <= i64::MAX {
                    Some(Some(v))
                } else {
                    None
                }
            }
        }
    }
}

pub open spec fn retv(r: Option<Option<i64>>) -> Option<Option<int>> {
    match r {
        Some(Some(v)) => Some(Some(v as int)),
        Some(None) => Some(None),
        None => None,
    }
}

fn ret_after(s: &[u8], p: usize) -> (r: Option<Option<i64>>)
    requires
        p <= s@.len(),
    ensures
        retv(r) == spec_ret(s@, p as int),
{
    if s.len() - p < 3 {
        return None;
    }
    if !(s[p] == 32 && s[p + 1] == 61 && s[p + 2] == 32) {
        return None;
    }
    if p + 3 < s.len() && s[p + 3] == 63 {
        return Some(None);
    }
    let neg = p + 3 < s.len() && s[p + 3] == 45;
    let d0: usize = if neg {
        p + 4
    } else {
        p + 3
    };
    let de = digits_end(s, d0);
    proof {
        lemma_digits_end(s@, d0 as int);
    }
    if de == d0 {
        return None;
    }
    if !(de == s.len() || s[de] == 32 || s[de] == 60) {
        return None;
    }
    assert(all_digits(s@.subrange(d0 as int, de as int)));
    proof {
        lemma_dec_val_nonneg(s@.subrange(d0 as int, de as int));
    }
    match parse_dec(s, d0, de) {
        Some(v) => {
            if neg {
                if v <= 0x7fffffffffffffff {
                    Some(Some(-(v as i64)))
                } else if v == 0x8000000000000000 {
                    Some(Some(i64::MIN))
                } else {
                    None
                }
            } else {
                if v <= 0x7fffffffffffffff {
                    Some(Some(v as i64))
                } else {
                    None
                }
            }
        },
        None => {
            proof {
                assert(dec_val(s@.subrange(d0 as int, de as int)) > u64::MAX);
            }
            None
        },
    }
}

/// Strips the optional leading timestamp: yields its value and the start of
/// the record proper, or nothing when the timestamp field is malformed.
pub open spec fn spec_strip(s: Seq<u8>) -> Option<(Option<int>, int)> {
    if s.len() == 0 || !is_digit(s[0]) {
        Some((None::<int>, 0))
    } else {
        match spec_find(s, 0, 32) {
            None => None,
            Some(sp) => match spec_ts_value(s.take(sp)) {
                None => None,
                Some(v) => Some((Some(v), sp + 1)),
            },
        }
    }
}

pub open spec fn stripv(r: Option<(Option<u64>, usize)>) -> Option<(Option<int>, int)> {
    match r {
        Some((ts, j)) => Some((opt_int(ts), j as int)),
        None => None,
    }
}

/// One parsed trace line.
pub enum Line {
    /// A completed call: `NAME(ARGS) = RET`.
    Call { name: Vec<u8>, args: Vec<Vec<u8>>, ret: i64, ts: Option<u64> },
    /// An interrupted call: its argument text continues on a later
    /// `resumed` line of the same process.
    Unfinished { name: Vec<u8>, partial: Vec<u8>, ts: Option<u64> },
    /// The continuation of an interrupted call: the remaining argument text
    /// and the return value.
    Resumed { name: Vec<u8>, tail: Vec<u8>, ret: i64, ts: Option<u64> },
    /// Recognized noise: signal deliveries, exit markers, blank lines,
    /// calls that never returned.
    Skipped,
    /// A line matching no production of the grammar.
    Malformed,
}

/// The mathematical value of a parsed line.
#[verifier::ext_equal]
pub enum LineV {
    Call { name: Seq<u8>, args: Seq<Seq<u8>>, ret: int, ts: Option<int> },
    Unfinished { name: Seq<u8>, partial: Seq<u8>, ts: Option<int> },
    Resumed { name: Seq<u8>, tail: Seq<u8>, ret: int, ts: Option<int> },
    Skipped,
    Malformed,
}

impl View for Line {
    type V = LineV;

    open spec fn view(&self) -> LineV {
        match self {
            Line::Call { name, args, ret, ts } => LineV::Call {
                name: name@,
                args: byte_views(args@),
                ret: *ret as int,
                ts: opt_int(*ts),
            },
            Line::Unfinished { name, partial, ts } => LineV::Unfinished {
                name: name@,
                partial: partial@,
                ts: opt_int(*ts),
            },
            Line::Resumed { name, tail, ret, ts } => LineV::Resumed {
                name: name@,
                tail: tail@,
                ret: *ret as int,
                ts: opt_int(*ts),
            },
            Line::Skipped => LineV::Skipped,
            Line::Malformed => LineV::Malformed,
        }
    }
}

/// `---`, opening a signal-delivery line.
pub open spec fn lit_signal() -> Seq<u8> {
    seq![45u8, 45, 45]
}

/// `+++`, opening a process-exit line.
pub open spec fn lit_exit() -> Seq<u8> {
    seq![43u8, 43, 43]
}

/// `<... `, opening a resumed continuation line.
pub open spec fn lit_resume_open() -> Seq<u8> {
    seq![60u8, 46, 46, 46, 32]
}

/// ` resumed>`, after the syscall name of a resumed line.
pub open spec fn lit_resumed_close() -> Seq<u8> {
    seq![32u8, 114, 101, 115, 117, 109, 101, 100, 62]
}

/// `<unfinished ...>`, the suffix of an interrupted call line.
pub open spec fn lit_unfinished() -> Seq<u8> {
    seq![60u8, 117, 110, 102, 105, 110, 105, 115, 104, 101, 100, 32, 46, 46, 46, 62]
}

/// Parse of a resumed continuation, after the timestamp was stripped.
pub open spec fn parse_resumed_spec(r: Seq<u8>, ts: Option<int>) -> LineV {
    let ne = spec_name_end(r, 5);
    if ne == 5 {
        LineV::Malformed
    } else if !matches_at(r, lit_resumed_close(), ne) {
        LineV::Malformed
    } else {
        let b0 = ne + lit_resumed_close().len();
        match spec_close(r, b0, 1, false, false) {
            None => LineV::Malformed,
            Some(c) => match spec_ret(r, c + 1) {
                None => LineV::Malformed,
                Some(None) => LineV::Skipped,
                Some(Some(v)) => LineV::Resumed {
                    name: r.subrange(5, ne),
                    tail: r.subrange(b0, c),
                    ret: v,
                    ts,
                },
            },
        }
    }
}

/// Parse of a call line (completed or interrupted), after the timestamp was
/// stripped.
pub open spec fn parse_call_spec(r: Seq<u8>, ts: Option<int>) -> LineV {
    let ne = spec_name_end(r, 0);
    if ne == 0 {
        LineV::Malformed
    } else if ne >= r.len() || r[ne] != 40 {
        LineV::Malformed
    } else if r.len() >= 16 && ne + 1 <= r.len() - 16 && matches_at(
        r,
        lit_unfinished(),
        r.len() - 16,
    ) {
        LineV::Unfinished {
            name: r.subrange(0, ne),
            partial: trim(r.subrange(ne + 1, r.len() - 16)),
            ts,
        }
    } else {
        match spec_close(r, ne + 1, 1, false, false) {
            None => LineV::Malformed,
            Some(c) => match spec_ret(r, c + 1) {
                None => LineV::Malformed,
                Some(None) => LineV::Skipped,
                Some(Some(v)) => LineV::Call {
                    name: r.subrange(0, ne),
                    args: spec_split_args(r.subrange(ne + 1, c)),
                    ret: v,
                    ts,
                },
            },
        }
    }
}

/// Parse of the record proper, after the timestamp was stripped.
pub open spec fn parse_rest_spec(r: Seq<u8>, ts: Option<int>) -> LineV {
    if r.len() == 0 {
        LineV::Skipped
    } else if matches_at(r, lit_signal(), 0) || matches_at(r, lit_exit(), 0) {
        LineV::Skipped
    } else if matches_at(r, lit_resume_open(), 0) {
        parse_resumed_spec(r, ts)
    } else {
        parse_call_spec(r, ts)
    }
}

/// The parse of one whole trace line: the grammar of this engine.
pub open spec fn parse_line_spec(s: Seq<u8>) -> LineV {
    match spec_strip(s) {
        None => LineV::Malformed,
        Some((ts, j)) => parse_rest_spec(s.subrange(j, s.len() as int), ts),
    }
}

fn parse_resumed(r: &[u8], ts: Option<u64>) -> (out: Line)
    requires
        5 <= r@.len(),
    ensures
        out@ == parse_resumed_spec(r@, opt_int(ts)),
{
    let n = r.len();
    let ne = name_end(r, 5);
    if ne == 5 {
        return Line::Malformed;
    }
    let pat: [u8; 9] = [32, 114, 101, 115, 117, 109, 101, 100, 62];
    proof {
        assert(pat@ =~= lit_resumed_close());
    }
    if !bytes_match_at(r, pat.as_slice(), ne) {
        return Line::Malformed;
    }
    assert(ne + 9 <= n);
    let b0 = ne + 9;
    match close_from(r, b0, 1, false, false) {
        None => Line::Malformed,
        Some(c) => match ret_after(r, c + 1) {
            None => Line::Malformed,
            Some(None) => Line::Skipped,
            Some(Some(v)) => {
                let out = Line::Resumed {
                    name: slice_to_vec(slice_subrange(r, 5, ne)),
                    tail: slice_to_vec(slice_subrange(r, b0, c)),
                    ret: v,
                    ts,
                };
                proof {
                    assert(out@ =~= parse_resumed_spec(r@, opt_int(ts)));
                }
                out
            },
        },
    }
}

fn parse_call(r: &[u8], ts: Option<u64>) -> (out: Line)
    ensures
        out@ == parse_call_spec(r@, opt_int(ts)),
{
    let n = r.len();
    let ne = name_end(r, 0);
    if ne == 0 {
        return Line::Malformed;
    }
    if ne >= r.len() || r[ne] != 40 {
        return Line::Malformed;
    }
    assert(ne < n);
    let pat: [u8; 16] = [60, 117, 110, 102, 105, 110, 105, 115, 104, 101, 100, 32, 46, 46, 46, 62];
    proof {
        assert(pat@ =~= lit_unfinished());
    }
    if r.len() >= 16 && ne + 1 <= r.len() - 16 && bytes_match_at(r, pat.as_slice(), r.len() - 16) {
        let (lo, hi) = trim_bounds(r, ne + 1, r.len() - 16);
        let out = Line::Unfinished {
            name: slice_to_vec(slice_subrange(r, 0, ne)),
            partial: slice_to_vec(slice_subrange(r, lo, hi)),
            ts,
        };
        proof {
            assert(out@ =~= parse_call_spec(r@, opt_int(ts)));
        }
        return out;
    }
    match close_from(r, ne + 1, 1, false, false) {
        None => Line::Malformed,
        Some(c) => match ret_after(r, c + 1) {
            None => Line::Malformed,
            Some(None) => Line::Skipped,
            Some(Some(v)) => {
                let out = Line::Call {
                    name: slice_to_vec(slice_subrange(r, 0, ne)),
                    args: split_args(slice_subrange(r, ne + 1, c)),
                    ret: v,
                    ts,
                };
                proof {
                    assert(out@ =~= parse_call_spec(r@, opt_int(ts)));
                }
                out
            },
        },
    }
}

/// Parses one trace line according to the grammar in the module
/// documentation.
pub fn parse_line(s: &[u8]) -> (out: Line)
    ensures
        out@ == parse_line_spec(s@),
{
    match strip_ts(s) {
        None => Line::Malformed,
        Some((ts, j)) => {
            let r = slice_subrange(s, j, s.len());
            assert(r@ =~= s@.subrange(j as int, s@.len() as int));
            if r.len() == 0 {
                return Line::Skipped;
            }
            let sig: [u8; 3] = [45, 45, 45];
            let ex: [u8; 3] = [43, 43, 43];
            let resq: [u8; 5] = [60, 46, 46, 46, 32];
            proof {
                assert(sig@ =~= lit_signal());
                assert(ex@ =~= lit_exit());
                assert(resq@ =~= lit_resume_open());
            }
            if bytes_match_at(r, sig.as_slice(), 0) || bytes_match_at(r, ex.as_slice(), 0) {
                return Line::Skipped;
            }
            if bytes_match_at(r, resq.as_slice(), 0) {
                parse_resumed(r, ts)
            } else {
                parse_call(r, ts)
            }
        },
    }
}

fn strip_ts(s: &[u8]) -> (r: Option<(Option<u64>, usize)>)
    ensures
        stripv(r) == spec_strip(s@),
        r is Some ==> r.unwrap().1 <= s@.len(),
{
    if s.len() == 0 {
        return Some((None, 0));
    }
    let b = s[0];
    if !(48 <= b && b <= 57) {
        return Some((None, 0));
    }
    match find_from(s, 0, 32) {
        None => None,
        Some(sp) => {
            let t = slice_subrange(s, 0, sp);
            assert(t@ =~= s@.take(sp as int));
            match ts_value(t) {
                None => None,
                Some(v) => Some((Some(v), sp + 1)),
            }
        },
    }
}

} // verus!
