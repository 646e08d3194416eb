//! Overlap-minimizing tiling: items are split into vertical stripes by the
//! centers' x, each stripe into slabs by the centers' y, and each tile again,
//! down to groups that fill one leaf node.
use vstd::prelude::*;

use core::cmp::Ordering;

use crate::rectangle::Rectangle;
use crate::utils::{ceil_div, divup, lemma_ceil_div_facts};
use vstd::arithmetic::div_mod::lemma_fundamental_div_mod_converse;

verus! {

broadcast use vstd::seq_lib::group_to_multiset_ensures;

/// An item index with its rectangle.
pub type Entry = (usize, Rectangle);

/// Twice the center of `rect` on one axis; empty rectangles sort last.
pub open spec fn center_key_spec(rect: Rectangle, by_x: bool) -> i128 {
    if rect.empty() {
        i128::MAX
    } else if by_x {
        (rect.x_min + rect.x_max) as i128
    } else {
        (rect.y_min + rect.y_max) as i128
    }
}

pub fn x_center(rect: &Rectangle) -> (r: i128)
    ensures
        r == center_key_spec(*rect, true),
{
    if rect.is_empty() {
        i128::MAX
    } else {
        rect.x_min as i128 + rect.x_max as i128
    }
}

pub fn y_center(rect: &Rectangle) -> (r: i128)
    ensures
        r == center_key_spec(*rect, false),
{
    if rect.is_empty() {
        i128::MAX
    } else {
        rect.y_min as i128 + rect.y_max as i128
    }
}

/// The order of two keys.
pub open spec fn key_order(k1: i128, k2: i128) -> Ordering {
    if k1 < k2 {
        Ordering::Less
    } else if k1 == k2 {
        Ordering::Equal
    } else {
        Ordering::Greater
    }
}

/// Compares two keys; an empty rectangle's key is the greatest of all.
pub fn total_cmp(x1: i128, x2: i128) -> (r: Ordering)
    ensures
        r == key_order(x1, x2),
{
    if x1 < x2 {
        Ordering::Less
    } else if x1 == x2 {
        Ordering::Equal
    } else {
        Ordering::Greater
    }
}

/// Order by x center, empties are last.
pub fn cmp_x(entry1: &Entry, entry2: &Entry) -> (r: Ordering)
    ensures
        r == key_order(center_key_spec(entry1.1, true), center_key_spec(entry2.1, true)),
{
    total_cmp(x_center(&entry1.1), x_center(&entry2.1))
}

/// Order by y center, empties are last.
pub fn cmp_y(entry1: &Entry, entry2: &Entry) -> (r: Ordering)
    ensures
        r == key_order(center_key_spec(entry1.1, false), center_key_spec(entry2.1, false)),
{
    total_cmp(y_center(&entry1.1), y_center(&entry2.1))
}

/// Order by the center on the axis that `by_x` picks.
pub fn cmp_along(entry1: &Entry, entry2: &Entry, by_x: bool) -> (r: Ordering)
    ensures
        r == key_order(center_key_spec(entry1.1, by_x), center_key_spec(entry2.1, by_x)),
{
    if by_x {
        cmp_x(entry1, entry2)
    } else {
        cmp_y(entry1, entry2)
    }
}

/// Relies on `slice::select_nth_unstable_by` on `entries[lo..hi]`, with the
/// total order of `cmp_along`: the range is rearranged so that the entry at
/// `nth` has no greater key before it and no smaller key after it; the rest is
/// untouched.
#[verifier::external_body]
fn select_nth(entries: &mut Vec<Entry>, lo: usize, hi: usize, nth: usize, by_x: bool)
    requires
        lo <= nth < hi <= old(entries)@.len(),
    ensures
        final(entries)@.len() == old(entries)@.len(),
        forall|i: int|
            0 <= i < old(entries)@.len() && (i < lo || hi <= i) ==> #[trigger] final(entries)@[i]
                == old(entries)@[i],
        final(entries)@.subrange(lo as int, hi as int).to_multiset() == old(entries)@.subrange(
            lo as int,
            hi as int,
        ).to_multiset(),
        forall|a: int|
            lo <= a < nth ==> center_key_spec(#[trigger] final(entries)@[a].1, by_x) <= center_key_spec(
                final(entries)@[nth as int].1,
                by_x,
            ),
        forall|b: int|
            nth < b < hi ==> center_key_spec(#[trigger] final(entries)@[b].1, by_x) >= center_key_spec(
                final(entries)@[nth as int].1,
                by_x,
            ),
{
    entries[lo..hi].select_nth_unstable_by(nth - lo, |a, b| cmp_along(a, b, by_x));
}

/// Relies on `slice::sort_unstable_by` on `entries[lo..hi]`, with the total
/// order of `cmp_along`: the range comes out ordered by key, rearranged from
/// the entries that were there; the rest is untouched.
#[verifier::external_body]
pub(crate) fn sort_range(entries: &mut Vec<Entry>, lo: usize, hi: usize, by_x: bool)
    requires
        lo <= hi <= old(entries)@.len(),
    ensures
        final(entries)@.len() == old(entries)@.len(),
        forall|i: int|
            0 <= i < old(entries)@.len() && (i < lo || hi <= i) ==> #[trigger] final(entries)@[i]
                == old(entries)@[i],
        final(entries)@.subrange(lo as int, hi as int).to_multiset() == old(entries)@.subrange(
            lo as int,
            hi as int,
        ).to_multiset(),
        forall|a: int, b: int|
            lo <= a < b < hi ==> center_key_spec(#[trigger] final(entries)@[a].1, by_x) <= center_key_spec(
                #[trigger] final(entries)@[b].1,
                by_x,
            ),
{
    entries[lo..hi].sort_unstable_by(|a, b| cmp_along(a, b, by_x));
}

/// A rearrangement inside `l .. h` keeps the multiset of an enclosing range.
pub proof fn lemma_nested_multiset(before: Seq<Entry>, after: Seq<Entry>, lo: int, hi: int, l: int, h: int)
    requires
        0 <= lo <= l <= h <= hi <= before.len(),
        after.len() == before.len(),
        forall|i: int| 0 <= i < before.len() && (i < l || h <= i) ==> #[trigger] after[i] == before[i],
        after.subrange(l, h).to_multiset() == before.subrange(l, h).to_multiset(),
    ensures
        after.subrange(lo, hi).to_multiset() == before.subrange(lo, hi).to_multiset(),
{
    assert forall|i: int| 0 <= i < hi - lo && (i < l - lo || h - lo <= i) implies #[trigger] after.subrange(lo, hi)[i] == before.subrange(lo, hi)[i] by {
        assert(after[lo + i] == before[lo + i]);
    }
    assert(after.subrange(lo, hi).subrange(l - lo, h - lo) =~= after.subrange(l, h));
    assert(before.subrange(lo, hi).subrange(l - lo, h - lo) =~= before.subrange(l, h));
    lemma_splice_multiset(before.subrange(lo, hi), after.subrange(lo, hi), l - lo, h - lo);
}

/// Rearranging entries within one run keeps runs separated.
pub proof fn lemma_within_run(before: Seq<Entry>, after: Seq<Entry>, lo: int, hi: int, c: int, l: int, h: int, by_x: bool)
    requires
        c >= 1,
        0 <= lo <= l <= h <= hi <= before.len(),
        h <= l + c,
        (l - lo) % c == 0,
        after.len() == before.len(),
        forall|i: int| 0 <= i < before.len() && (i < l || h <= i) ==> #[trigger] after[i] == before[i],
        after.subrange(l, h).to_multiset() == before.subrange(l, h).to_multiset(),
        separated(before, lo, hi, c, by_x),
    ensures
        separated(after, lo, hi, c, by_x),
{
    assert forall|i: int, j: int|
        lo <= i < j < hi && run_of(i, lo, c) < run_of(j, lo, c) implies center_key_spec(#[trigger] after[i].1, by_x)
            <= center_key_spec(#[trigger] after[j].1, by_x) by {
        let in_i = l <= i < h;
        let in_j = l <= j < h;
        if in_i && in_j {
            lemma_runs(lo, c, l, i, j);
        } else if in_i {
            let b = lemma_from_range(before, after, l, h, i);
            assert(after[j] == before[j]);
            if b <= i {
                lemma_runs(lo, c, l, b, i);
            } else {
                lemma_runs(lo, c, l, i, b);
            }
        } else if in_j {
            let b = lemma_from_range(before, after, l, h, j);
            assert(after[i] == before[i]);
            if b <= j {
                lemma_runs(lo, c, l, b, j);
            } else {
                lemma_runs(lo, c, l, j, b);
            }
        } else {
            assert(after[i] == before[i] && after[j] == before[j]);
        }
    }
}

/// A rearrangement of `old` within `lo .. hi` rearranges the whole.
pub proof fn lemma_splice_multiset(old: Seq<Entry>, new: Seq<Entry>, lo: int, hi: int)
    requires
        0 <= lo <= hi <= old.len(),
        new.len() == old.len(),
        forall|i: int| 0 <= i < old.len() && (i < lo || hi <= i) ==> #[trigger] new[i] == old[i],
        new.subrange(lo, hi).to_multiset() == old.subrange(lo, hi).to_multiset(),
    ensures
        new.to_multiset() == old.to_multiset(),
{
    let n = old.len() as int;
    assert(old =~= old.subrange(0, lo) + old.subrange(lo, hi) + old.subrange(hi, n));
    assert(new =~= new.subrange(0, lo) + new.subrange(lo, hi) + new.subrange(hi, n));
    assert(new.subrange(0, lo) =~= old.subrange(0, lo));
    assert(new.subrange(hi, n) =~= old.subrange(hi, n));
    vstd::seq_lib::lemma_multiset_commutative(old.subrange(0, lo) + old.subrange(lo, hi), old.subrange(hi, n));
    vstd::seq_lib::lemma_multiset_commutative(old.subrange(0, lo), old.subrange(lo, hi));
    vstd::seq_lib::lemma_multiset_commutative(new.subrange(0, lo) + new.subrange(lo, hi), new.subrange(hi, n));
    vstd::seq_lib::lemma_multiset_commutative(new.subrange(0, lo), new.subrange(lo, hi));
}

/// Total size of the ranges left to split, each counted as `2 * len - 1`.
pub open spec fn pending(st: Seq<(usize, usize)>) -> int
    decreases st.len(),
{
    if st.len() == 0 {
        0
    } else {
        pending(st.drop_last()) + 2 * (st.last().1 - st.last().0) - 1
    }
}

pub proof fn lemma_pending_push(st: Seq<(usize, usize)>, e: (usize, usize))
    ensures
        pending(st.push(e)) == pending(st) + 2 * (e.1 - e.0) - 1,
{
    assert(st.push(e).drop_last() =~= st);
}

pub proof fn lemma_pending_nonneg(st: Seq<(usize, usize)>)
    requires
        forall|s: int| 0 <= s < st.len() ==> (#[trigger] st[s]).0 < st[s].1,
    ensures
        pending(st) >= 0,
    decreases st.len(),
{
    if st.len() > 0 {
        assert forall|s: int| 0 <= s < st.drop_last().len() implies (#[trigger] st.drop_last()[s]).0 < st.drop_last()[s].1 by {
            assert(st.drop_last()[s] == st[s]);
        }
        lemma_pending_nonneg(st.drop_last());
    }
}

/// Position `i` lies in run `(i - lo) / size` of `lo .. hi`.
pub open spec fn run_of(i: int, lo: int, size: int) -> int {
    (i - lo) / size
}

/// Across runs of `size` entries from `lo`, keys never decrease.
pub open spec fn separated(e: Seq<Entry>, lo: int, hi: int, size: int, by_x: bool) -> bool {
    forall|i: int, j: int|
        lo <= i < j < hi && run_of(i, lo, size) < run_of(j, lo, size) ==> center_key_spec(
            #[trigger] e[i].1,
            by_x,
        ) <= center_key_spec(#[trigger] e[j].1, by_x)
}

/// Some range left to split holds both `i` and `j`.
pub open spec fn covered(st: Seq<(usize, usize)>, i: int, j: int) -> bool {
    exists|s: int| 0 <= s < st.len() && st[s].0 <= i && j < st[s].1
}

/// An entry of a rearranged range comes from that range.
proof fn lemma_from_range(old: Seq<Entry>, new: Seq<Entry>, l: int, h: int, a: int) -> (b: int)
    requires
        0 <= l <= a < h <= old.len(),
        new.len() == old.len(),
        new.subrange(l, h).to_multiset() == old.subrange(l, h).to_multiset(),
    ensures
        l <= b < h,
        new[a] == old[b],
{
    assert(new.subrange(l, h)[a - l] == new[a]);
    assert(new.subrange(l, h).contains(new[a]));
    assert(new.subrange(l, h).to_multiset().count(new[a]) > 0);
    assert(old.subrange(l, h).contains(new[a]));
    let k = choose|k: int| 0 <= k < h - l && old.subrange(l, h)[k] == new[a];
    l + k
}

proof fn lemma_runs(lo: int, c: int, l: int, i: int, j: int)
    requires
        c >= 1,
        lo <= l,
        (l - lo) % c == 0,
    ensures
        l <= i <= j < l + c ==> run_of(i, lo, c) == run_of(j, lo, c),
        lo <= i < l <= j ==> run_of(i, lo, c) < run_of(j, lo, c),
{
    let m = (l - lo) / c;
    vstd::arithmetic::div_mod::lemma_fundamental_div_mod(l - lo, c);
    if l <= i <= j < l + c {
        vstd::arithmetic::div_mod::lemma_fundamental_div_mod_converse(i - lo, c, m, i - l);
        vstd::arithmetic::div_mod::lemma_fundamental_div_mod_converse(j - lo, c, m, j - l);
    }
    if lo <= i < l <= j {
        vstd::arithmetic::div_mod::lemma_fundamental_div_mod(i - lo, c);
        vstd::arithmetic::div_mod::lemma_fundamental_div_mod(j - lo, c);
        let qi = (i - lo) / c;
        let qj = (j - lo) / c;
        assert(qi < m) by (nonlinear_arith)
            requires
                i - lo == c * qi + (i - lo) % c,
                0 <= (i - lo) % c,
                l - lo == c * m,
                i < l,
                c >= 1,
        ;
        assert(m <= qj) by (nonlinear_arith)
            requires
                j - lo == c * qj + (j - lo) % c,
                (j - lo) % c < c,
                l - lo == c * m,
                l <= j,
                c >= 1,
        ;
    }
}

pub proof fn lemma_aligned(lo: int, c: int, l: int, k: int)
    requires
        c >= 1,
        lo <= l,
        (l - lo) % c == 0,
        k >= 0,
    ensures
        (l + c * k - lo) % c == 0,
{
    vstd::arithmetic::div_mod::lemma_fundamental_div_mod(l - lo, c);
    let m = (l - lo) / c;
    assert(l + c * k - lo == (m + k) * c + 0) by (nonlinear_arith)
        requires
            l - lo == c * m + 0,
    ;
    vstd::arithmetic::div_mod::lemma_fundamental_div_mod_converse(l + c * k - lo, c, m + k, 0);
}

/// Runs counted from an aligned `start` are runs counted from `lo`, shifted.
proof fn lemma_run_shift(lo: int, c: int, start: int, i: int)
    requires
        c >= 1,
        lo <= start <= i,
        (start - lo) % c == 0,
    ensures
        run_of(i, lo, c) == run_of(start, lo, c) + run_of(i, start, c),
{
    vstd::arithmetic::div_mod::lemma_fundamental_div_mod(start - lo, c);
    vstd::arithmetic::div_mod::lemma_fundamental_div_mod(i - start, c);
    let m = (start - lo) / c;
    let q = (i - start) / c;
    let r = (i - start) % c;
    assert(i - lo == (m + q) * c + r) by (nonlinear_arith)
        requires
            start - lo == c * m + 0,
            i - start == c * q + r,
    ;
    vstd::arithmetic::div_mod::lemma_fundamental_div_mod_converse(i - lo, c, m + q, r);
}

/// A position aligned to runs of `c * k` is aligned to runs of `c`.
proof fn lemma_aligned_multiple(lo: int, c: int, start: int, k: int)
    requires
        c >= 1,
        k >= 1,
        lo <= start,
        (start - lo) % (c * k) == 0,
    ensures
        (start + c * k - lo) % c == 0,
{
    assert(c * k >= 1) by (nonlinear_arith)
        requires
            c >= 1,
            k >= 1,
    ;
    vstd::arithmetic::div_mod::lemma_fundamental_div_mod(start - lo, c * k);
    let m = (start - lo) / (c * k);
    assert(start + c * k - lo == (m * k + k) * c + 0) by (nonlinear_arith)
        requires
            start - lo == (c * k) * m + 0,
    ;
    vstd::arithmetic::div_mod::lemma_fundamental_div_mod_converse(start + c * k - lo, c, m * k + k, 0);
}

/// Splits `entries[lo..hi]` into runs of `chunk_size` entries (the last one
/// shorter), no key of a run above any key of a later run, by repeated
/// selection at a run boundary near the middle of each range left to split.
pub fn partition_to_chunks(chunk_size: usize, entries: &mut Vec<Entry>, lo: usize, hi: usize, along_x: bool)
    requires
        chunk_size >= 1,
        2 * chunk_size <= usize::MAX,
        lo <= hi <= old(entries)@.len(),
    ensures
        final(entries)@.len() == old(entries)@.len(),
        final(entries)@.to_multiset() == old(entries)@.to_multiset(),
        final(entries)@.subrange(lo as int, hi as int).to_multiset() == old(entries)@.subrange(lo as int, hi as int).to_multiset(),
        forall|i: int| 0 <= i < old(entries)@.len() && (i < lo || hi <= i) ==> #[trigger] final(entries)@[i] == old(entries)@[i],
        separated(final(entries)@, lo as int, hi as int, chunk_size as int, along_x),
{
    let ghost e0 = entries@;
    let ghost c = chunk_size as int;
    let mut stack: Vec<(usize, usize)> = Vec::new();
    if lo < hi {
        stack.push((lo, hi));
    }
    proof {
        lemma_pending_push(Seq::empty(), (lo, hi));
        vstd::arithmetic::div_mod::lemma_fundamental_div_mod_converse(0, c, 0, 0);
        assert((lo - lo) % c == 0);
        if lo < hi {
            assert forall|i: int, j: int| lo <= i < j < hi implies covered(stack@, i, j) by {
                assert(stack@[0].0 <= i && j < stack@[0].1);
            }
        }
    }
    while stack.len() > 0
        invariant
            c == chunk_size,
            chunk_size >= 1,
            2 * chunk_size <= usize::MAX,
            lo <= hi <= e0.len(),
            entries@.len() == e0.len(),
            entries@.to_multiset() == e0.to_multiset(),
            entries@.subrange(lo as int, hi as int).to_multiset() == e0.subrange(lo as int, hi as int).to_multiset(),
            forall|i: int| 0 <= i < e0.len() && (i < lo || hi <= i) ==> #[trigger] entries@[i] == e0[i],
            forall|s: int| 0 <= s < stack@.len() ==> lo <= (#[trigger] stack@[s]).0 < stack@[s].1 <= hi,
            forall|s: int| 0 <= s < stack@.len() ==> ((#[trigger] stack@[s]).0 - lo) % c == 0 && (stack@[s].1 == hi || (stack@[s].1 - lo) % c == 0),
            forall|s1: int, s2: int| 0 <= s1 < s2 < stack@.len() ==> (#[trigger] stack@[s1]).1 <= (#[trigger] stack@[s2]).0 || stack@[s2].1 <= stack@[s1].0,
            forall|i: int, j: int|
                lo <= i < j < hi && run_of(i, lo as int, c) < run_of(j, lo as int, c) ==> center_key_spec(#[trigger] entries@[i].1, along_x)
                    <= center_key_spec(#[trigger] entries@[j].1, along_x) || covered(stack@, i, j),
        decreases pending(stack@),
    {
        let ghost st0 = stack@;
        let ghost e1 = entries@;
        let (low, high) = stack.pop().unwrap();
        let ghost last = st0.len() - 1;
        proof {
            assert(st0.drop_last() =~= stack@);
            assert(st0[last] == (low, high));
            assert forall|s: int| 0 <= s < stack@.len() implies lo <= (#[trigger] stack@[s]).0 < stack@[s].1 <= hi by {
                assert(stack@[s] == st0[s]);
            }
            assert forall|s: int| 0 <= s < stack@.len() implies ((#[trigger] stack@[s]).0 - lo) % c == 0 && (stack@[s].1 == hi || (stack@[s].1 - lo) % c == 0) by {
                assert(stack@[s] == st0[s]);
            }
            assert forall|s1: int, s2: int| 0 <= s1 < s2 < stack@.len() implies (#[trigger] stack@[s1]).1 <= (#[trigger] stack@[s2]).0 || stack@[s2].1 <= stack@[s1].0 by {
                assert(stack@[s1] == st0[s1] && stack@[s2] == st0[s2]);
            }
            lemma_pending_nonneg(stack@);
        }
        if high - low > chunk_size {
            let len = high - low;
            proof {
                lemma_ceil_div_facts(len as int, 2 * chunk_size as int);
                assert(chunk_size * ceil_div(len as int, 2 * chunk_size as int) < len) by (nonlinear_arith)
                    requires
                        2 * chunk_size * ceil_div(len as int, 2 * chunk_size as int) <= len + 2 * chunk_size - 1,
                        ceil_div(len as int, 2 * chunk_size as int) >= 1,
                        len > chunk_size,
                        chunk_size >= 1,
                ;
                assert(chunk_size * ceil_div(len as int, 2 * chunk_size as int) >= chunk_size) by (nonlinear_arith)
                    requires
                        ceil_div(len as int, 2 * chunk_size as int) >= 1,
                        chunk_size >= 1,
                ;
            }
            let mid = low + chunk_size * divup(len, 2 * chunk_size);
            proof {
                lemma_aligned(lo as int, c, low as int, ceil_div(len as int, 2 * chunk_size as int));
            }
            let ghost before = entries@;
            select_nth(entries, low, high, mid, along_x);
            let ghost e2 = entries@;
            proof {
                lemma_splice_multiset(before, e2, low as int, high as int);
                assert(e2.subrange(lo as int, hi as int).to_multiset() == before.subrange(lo as int, hi as int).to_multiset()) by {
                    let n = e2.len() as int;
                    assert forall|i: int| 0 <= i < hi - lo && (i < low - lo || high - lo <= i) implies #[trigger] e2.subrange(lo as int, hi as int)[i] == before.subrange(lo as int, hi as int)[i] by {
                        assert(e2[lo + i] == before[lo + i]);
                    }
                    assert(e2.subrange(lo as int, hi as int).subrange(low - lo, high - lo) =~= e2.subrange(low as int, high as int));
                    assert(before.subrange(lo as int, hi as int).subrange(low - lo, high - lo) =~= before.subrange(low as int, high as int));
                    lemma_splice_multiset(before.subrange(lo as int, hi as int), e2.subrange(lo as int, hi as int), low - lo, high - lo);
                }
            }
            let ghost s1 = stack@;
            stack.push((low, mid));
            proof {
                lemma_pending_push(s1, (low, mid));
            }
            let ghost s2 = stack@;
            stack.push((mid, high));
            proof {
                lemma_pending_push(s2, (mid, high));
                let st = stack@;
                assert(st[s1.len() as int] == (low, mid));
                assert(st[s1.len() as int + 1] == (mid, high));
                assert forall|s: int| 0 <= s < st.len() implies lo <= (#[trigger] st[s]).0 < st[s].1 <= hi by {
                    if s < s1.len() {
                        assert(st[s] == s1[s]);
                    }
                }
                assert forall|s: int| 0 <= s < st.len() implies ((#[trigger] st[s]).0 - lo) % c == 0 && (st[s].1 == hi || (st[s].1 - lo) % c == 0) by {
                    if s < s1.len() {
                        assert(st[s] == s1[s]);
                    }
                }
                assert forall|x1: int, x2: int| 0 <= x1 < x2 < st.len() implies (#[trigger] st[x1]).1 <= (#[trigger] st[x2]).0 || st[x2].1 <= st[x1].0 by {
                    if x1 < s1.len() {
                        assert(st[x1] == st0[x1]);
                        assert(st0[x1].1 <= st0[last].0 || st0[last].1 <= st0[x1].0);
                        if x2 < s1.len() {
                            assert(st[x2] == st0[x2]);
                        }
                    }
                }
                assert forall|i: int, j: int|
                    lo <= i < j < hi && run_of(i, lo as int, c) < run_of(j, lo as int, c) implies center_key_spec(#[trigger] e2[i].1, along_x)
                        <= center_key_spec(#[trigger] e2[j].1, along_x) || covered(st, i, j) by {
                    let inside_i = low <= i < high;
                    let inside_j = low <= j < high;
                    if inside_i && inside_j {
                        if j < mid {
                            assert(st[s1.len() as int].0 <= i && j < st[s1.len() as int].1);
                        } else if mid <= i {
                            assert(st[s1.len() as int + 1].0 <= i && j < st[s1.len() as int + 1].1);
                        } else if j == mid {
                        } else {
                            assert(center_key_spec(e2[i].1, along_x) <= center_key_spec(e2[mid as int].1, along_x));
                        }
                    } else if inside_i {
                        let b = lemma_from_range(before, e2, low as int, high as int, i);
                        assert(e2[j] == before[j]);
                        lemma_runs(lo as int, c, high as int, b, j);
                        assert(high != hi);
                        if covered(st0, b, j) {
                            let s = choose|s: int| 0 <= s < st0.len() && st0[s].0 <= b && j < st0[s].1;
                            if s != last {
                                assert(st0[s].1 <= st0[last].0 || st0[last].1 <= st0[s].0);
                            }
                        }
                    } else if inside_j {
                        let b = lemma_from_range(before, e2, low as int, high as int, j);
                        assert(e2[i] == before[i]);
                        lemma_runs(lo as int, c, low as int, i, b);
                        if covered(st0, i, b) {
                            let s = choose|s: int| 0 <= s < st0.len() && st0[s].0 <= i && b < st0[s].1;
                            if s != last {
                                assert(st0[s].1 <= st0[last].0 || st0[last].1 <= st0[s].0);
                            }
                        }
                    } else {
                        assert(e2[i] == before[i] && e2[j] == before[j]);
                        if covered(st0, i, j) {
                            let s = choose|s: int| 0 <= s < st0.len() && st0[s].0 <= i && j < st0[s].1;
                            if s == last {
                                if i < low {
                                    assert(false);
                                }
                            } else {
                                assert(st[s] == st0[s]);
                            }
                        }
                    }
                }
            }
        } else {
            proof {
                assert forall|i: int, j: int|
                    lo <= i < j < hi && run_of(i, lo as int, c) < run_of(j, lo as int, c) implies center_key_spec(#[trigger] entries@[i].1, along_x)
                        <= center_key_spec(#[trigger] entries@[j].1, along_x) || covered(stack@, i, j) by {
                    if covered(st0, i, j) {
                        let s = choose|s: int| 0 <= s < st0.len() && st0[s].0 <= i && j < st0[s].1;
                        if s == last {
                            lemma_runs(lo as int, c, low as int, i, j);
                        } else {
                            assert(stack@[s] == st0[s]);
                        }
                    }
                }
            }
        }
    }
}

pub open spec fn sq(k: int) -> int {
    k * k
}

/// `d` is a perfect square.
pub open spec fn is_square(d: int) -> bool {
    exists|k: int| 0 <= k && #[trigger] sq(k) == d
}

/// The root of a perfect square.
pub open spec fn square_root(d: int) -> int {
    choose|k: int| 0 <= k && #[trigger] sq(k) == d
}

/// The square root of a perfect square.
fn exact_sqrt(degree: usize) -> (r: usize)
    requires
        is_square(degree as int),
    ensures
        r * r == degree,
        r == square_root(degree as int),
{
    let mut k: usize = 0;
    while k * k < degree
        invariant
            is_square(degree as int),
            k * k <= degree,
        decreases degree - k,
    {
        proof {
            let j = choose|j: int| 0 <= j && #[trigger] sq(j) == degree;
            assert(j * j == degree);
            assert(k < j) by (nonlinear_arith)
                requires
                    k * k < degree,
                    j * j == degree,
                    j >= 0,
                    k >= 0,
            ;
            assert((k + 1) * (k + 1) <= degree) by (nonlinear_arith)
                requires
                    k < j,
                    j * j == degree,
                    k >= 0,
            ;
            assert(k <= k * k) by (nonlinear_arith)
                requires
                    k >= 0,
            ;
        }
        k += 1;
    }
    proof {
        let j = square_root(degree as int);
        assert(0 <= j && sq(j) == degree);
        assert(j == k) by (nonlinear_arith)
            requires
                j * j == k * k,
                j >= 0,
                k >= 0,
        ;
    }
    k
}

/// The tile size for `n` entries and `degree` tiles: at least `degree`.
pub open spec fn omt_chunk(n: int, degree: int) -> int {
    if degree >= ceil_div(n, degree) {
        degree
    } else {
        ceil_div(n, degree)
    }
}

/// `e[lo..hi]` is tiled: stripes of `c * ns` entries separated by the
/// centers' x, and within each stripe runs of `c` entries separated by the
/// centers' y.
pub open spec fn tiled(e: Seq<Entry>, lo: int, hi: int, c: int, ns: int) -> bool {
    &&& separated(e, lo, hi, c * ns, true)
    &&& forall|i: int, j: int|
        lo <= i < j < hi && run_of(i, lo, c * ns) == run_of(j, lo, c * ns) && run_of(i, lo, c) < run_of(j, lo, c)
            ==> center_key_spec(#[trigger] e[i].1, false) <= center_key_spec(#[trigger] e[j].1, false)
}

/// Two positions of one tile lie in the same run and the same stripe.
proof fn lemma_same_tile(lo: int, c: int, ns: int, start: int, b: int, i: int)
    requires
        c >= 1,
        ns >= 1,
        lo <= start,
        (start - lo) % c == 0,
        start <= b < start + c,
        start <= i < start + c,
    ensures
        run_of(b, lo, c) == run_of(i, lo, c),
        run_of(b, lo, c * ns) == run_of(i, lo, c * ns),
{
    if b <= i {
        lemma_runs(lo, c, start, b, i);
    } else {
        lemma_runs(lo, c, start, i, b);
    }
    vstd::arithmetic::div_mod::lemma_div_denominator(b - lo, c, ns);
    vstd::arithmetic::div_mod::lemma_div_denominator(i - lo, c, ns);
}

/// Tiles `entries[lo..hi]` once: stripes of `chunk_size * square_root(degree)`
/// entries by the centers' x, then runs of `chunk_size` entries within each
/// stripe by the centers' y. Returns the tile size, `chunk_size`.
pub fn partition_omt(entries: &mut Vec<Entry>, lo: usize, hi: usize, degree: usize) -> (chunk_size: usize)
    requires
        lo <= hi <= old(entries)@.len(),
        degree >= 2,
        is_square(degree as int),
        2 * (hi - lo) * degree <= usize::MAX,
    ensures
        final(entries)@.len() == old(entries)@.len(),
        final(entries)@.to_multiset() == old(entries)@.to_multiset(),
        final(entries)@.subrange(lo as int, hi as int).to_multiset() == old(entries)@.subrange(lo as int, hi as int).to_multiset(),
        forall|i: int| 0 <= i < old(entries)@.len() && (i < lo || hi <= i) ==> #[trigger] final(entries)@[i] == old(entries)@[i],
        hi - lo <= degree ==> chunk_size == hi - lo && final(entries)@ == old(entries)@,
        hi - lo > degree ==> chunk_size == if degree >= ceil_div((hi - lo) as int, degree as int) {
            degree as int
        } else {
            ceil_div((hi - lo) as int, degree as int)
        },
        hi - lo > degree ==> tiled(final(entries)@, lo as int, hi as int, chunk_size as int, square_root(degree as int)),
{
    let num_entries = hi - lo;
    if num_entries <= degree {
        return num_entries;
    }
    let up = divup(num_entries, degree);
    let chunk_size = if degree >= up {
        degree
    } else {
        up
    };
    let num_stripes = exact_sqrt(degree);
    proof {
        lemma_ceil_div_facts(num_entries as int, degree as int);
        assert(num_stripes >= 1) by (nonlinear_arith)
            requires
                num_stripes * num_stripes == degree,
                degree >= 1,
        ;
        assert(num_stripes <= degree) by (nonlinear_arith)
            requires
                num_stripes * num_stripes == degree,
                num_stripes >= 1,
        ;
        assert(chunk_size <= num_entries);
        assert(num_entries == hi - lo);
        assert(chunk_size <= chunk_size * num_stripes) by (nonlinear_arith)
            requires
                num_stripes >= 1,
                chunk_size >= 0,
        ;
        assert(2 * (chunk_size * num_stripes) <= usize::MAX) by (nonlinear_arith)
            requires
                chunk_size <= num_entries,
                num_stripes <= degree,
                2 * num_entries * degree <= usize::MAX,
                chunk_size >= 0,
                num_stripes >= 0,
        ;
        assert(chunk_size >= 1);
        assert(chunk_size * num_stripes >= 1) by (nonlinear_arith)
            requires
                chunk_size >= 1,
                num_stripes >= 1,
        ;
    }
    let stripe_size = chunk_size * num_stripes;
    let ghost e0 = entries@;
    proof {
        lemma_fundamental_div_mod_converse(0, chunk_size as int, 0, 0);
        lemma_fundamental_div_mod_converse(0, stripe_size as int, 0, 0);
    }
    partition_to_chunks(stripe_size, entries, lo, hi, true);
    let ghost e1 = entries@;
    let mut start = lo;
    while start < hi
        invariant
            lo <= start <= hi <= e0.len(),
            chunk_size >= 1,
            stripe_size >= 1,
            stripe_size == chunk_size * num_stripes,
            num_stripes >= 1,
            2 * chunk_size <= usize::MAX,
            (start - lo) % (stripe_size as int) == 0 || start == hi,
            (start - lo) % (chunk_size as int) == 0 || start == hi,
            entries@.len() == e0.len(),
            entries@.to_multiset() == e0.to_multiset(),
            entries@.subrange(lo as int, hi as int).to_multiset() == e0.subrange(lo as int, hi as int).to_multiset(),
            forall|j: int| 0 <= j < e0.len() && (j < lo || hi <= j) ==> #[trigger] entries@[j] == old(entries)@[j],
            forall|j: int| 0 <= j < e0.len() && (j < lo || hi <= j) ==> #[trigger] e0[j] == old(entries)@[j],
            separated(entries@, lo as int, hi as int, stripe_size as int, true),
            forall|i: int, j: int|
                lo <= i < j < start && run_of(i, lo as int, stripe_size as int) == run_of(j, lo as int, stripe_size as int)
                    && run_of(i, lo as int, chunk_size as int) < run_of(j, lo as int, chunk_size as int) ==> center_key_spec(
                    #[trigger] entries@[i].1,
                    false,
                ) <= center_key_spec(#[trigger] entries@[j].1, false),
        decreases hi - start,
    {
        let stripe_top = if hi - start <= stripe_size {
            hi
        } else {
            start + stripe_size
        };
        let ghost before = entries@;
        partition_to_chunks(chunk_size, entries, start, stripe_top, false);
        let ghost after = entries@;
        proof {
            assert(after.subrange(lo as int, hi as int).to_multiset() == before.subrange(lo as int, hi as int).to_multiset()) by {
                assert forall|i: int| 0 <= i < hi - lo && (i < start - lo || stripe_top - lo <= i) implies #[trigger] after.subrange(lo as int, hi as int)[i] == before.subrange(lo as int, hi as int)[i] by {
                    assert(after[lo + i] == before[lo + i]);
                }
                assert(after.subrange(lo as int, hi as int).subrange(start - lo, stripe_top - lo) =~= after.subrange(start as int, stripe_top as int));
                assert(before.subrange(lo as int, hi as int).subrange(start - lo, stripe_top - lo) =~= before.subrange(start as int, stripe_top as int));
                lemma_splice_multiset(before.subrange(lo as int, hi as int), after.subrange(lo as int, hi as int), start - lo, stripe_top - lo);
            }
            let sz = stripe_size as int;
            let cz = chunk_size as int;
            assert forall|i: int, j: int|
                lo <= i < j < hi && run_of(i, lo as int, sz) < run_of(j, lo as int, sz) implies center_key_spec(
                    #[trigger] after[i].1,
                    true,
                ) <= center_key_spec(#[trigger] after[j].1, true) by {
                let in_i = start <= i < stripe_top;
                let in_j = start <= j < stripe_top;
                if in_i && in_j {
                    lemma_runs(lo as int, sz, start as int, i, j);
                } else if in_i {
                    let b = lemma_from_range(before, after, start as int, stripe_top as int, i);
                    assert(after[j] == before[j]);
                    lemma_runs(lo as int, sz, start as int, b, i);
                    lemma_runs(lo as int, sz, start as int, i, b);
                } else if in_j {
                    let b = lemma_from_range(before, after, start as int, stripe_top as int, j);
                    assert(after[i] == before[i]);
                    lemma_runs(lo as int, sz, start as int, b, j);
                    lemma_runs(lo as int, sz, start as int, j, b);
                } else {
                    assert(after[i] == before[i] && after[j] == before[j]);
                }
            }
            assert forall|i: int, j: int|
                lo <= i < j < stripe_top && run_of(i, lo as int, sz) == run_of(j, lo as int, sz)
                    && run_of(i, lo as int, cz) < run_of(j, lo as int, cz) implies center_key_spec(
                    #[trigger] after[i].1,
                    false,
                ) <= center_key_spec(#[trigger] after[j].1, false) by {
                if j < start {
                    assert(after[i] == before[i] && after[j] == before[j]);
                } else if i < start {
                    lemma_runs(lo as int, sz, start as int, i, j);
                } else {
                    lemma_run_shift(lo as int, cz, start as int, i);
                    lemma_run_shift(lo as int, cz, start as int, j);
                }
            }
            if stripe_top < hi {
                lemma_aligned(lo as int, sz, start as int, 1);
                assert(stripe_size == num_stripes * chunk_size) by (nonlinear_arith)
                    requires
                        stripe_size == chunk_size * num_stripes,
                ;
                lemma_aligned_multiple(lo as int, cz, start as int, num_stripes as int);
            }
        }
        start = stripe_top;
    }
    proof {
        assert(square_root(degree as int) == num_stripes);
    }
    chunk_size
}

/// Tiles `entries[lo..hi]` recursively until each tile fits in one leaf node,
/// and marks in `starts` where each of those groups begins.
pub fn partition_tiles(entries: &mut Vec<Entry>, lo: usize, hi: usize, degree: usize, starts: &mut Vec<bool>)
    requires
        lo <= hi <= old(entries)@.len(),
        old(starts)@.len() == old(entries)@.len(),
        degree >= 2,
        is_square(degree as int),
        2 * old(entries)@.len() * degree <= usize::MAX,
    ensures
        final(entries)@.len() == old(entries)@.len(),
        final(entries)@.to_multiset() == old(entries)@.to_multiset(),
        final(entries)@.subrange(lo as int, hi as int).to_multiset() == old(entries)@.subrange(lo as int, hi as int).to_multiset(),
        forall|i: int| 0 <= i < old(entries)@.len() && (i < lo || hi <= i) ==> #[trigger] final(entries)@[i] == old(entries)@[i],
        final(starts)@.len() == old(starts)@.len(),
        forall|i: int| 0 <= i < old(starts)@.len() && (i < lo || hi <= i) ==> #[trigger] final(starts)@[i] == old(starts)@[i],
        lo < hi ==> final(starts)@[lo as int],
        hi - lo <= degree ==> final(starts)@ == if lo < hi {
            old(starts)@.update(lo as int, true)
        } else {
            old(starts)@
        },
        hi - lo > degree ==> tiled(final(entries)@, lo as int, hi as int, omt_chunk((hi - lo) as int, degree as int), square_root(degree as int)),
    decreases hi - lo,
{
    if hi - lo <= degree {
        if lo < hi {
            starts.set(lo, true);
        }
        return;
    }
    proof {
        assert(2 * (hi - lo) * degree <= 2 * entries@.len() * degree) by (nonlinear_arith)
            requires
                hi - lo <= entries@.len(),
                degree >= 0,
        ;
    }
    let chunk_size = partition_omt(entries, lo, hi, degree);
    let ghost ns = square_root(degree as int);
    proof {
        lemma_ceil_div_facts((hi - lo) as int, degree as int);
        let j = square_root(degree as int);
        assert(0 <= j && sq(j) == degree);
        assert(j >= 1) by (nonlinear_arith)
            requires
                j * j == degree,
                degree >= 2,
                j >= 0,
        ;
        lemma_fundamental_div_mod_converse(0, chunk_size as int, 0, 0);
    }
    let ghost e0 = entries@;
    let mut start = lo;
    while start < hi
        invariant
            lo <= start <= hi <= e0.len(),
            hi - lo > degree,
            1 <= chunk_size < hi - lo,
            chunk_size == omt_chunk((hi - lo) as int, degree as int),
            ns == square_root(degree as int),
            ns >= 1,
            degree >= 2,
            is_square(degree as int),
            2 * e0.len() * degree <= usize::MAX,
            (start - lo) % (chunk_size as int) == 0 || start == hi,
            entries@.len() == e0.len(),
            starts@.len() == e0.len(),
            forall|i: int| 0 <= i < e0.len() && (i < lo || hi <= i) ==> #[trigger] starts@[i] == old(starts)@[i],
            start > lo ==> starts@[lo as int],
            entries@.to_multiset() == old(entries)@.to_multiset(),
            entries@.subrange(lo as int, hi as int).to_multiset() == old(entries)@.subrange(lo as int, hi as int).to_multiset(),
            e0.len() == old(entries)@.len(),
            forall|i: int| 0 <= i < e0.len() && (i < lo || hi <= i) ==> #[trigger] entries@[i] == old(entries)@[i],
            tiled(entries@, lo as int, hi as int, chunk_size as int, ns),
        decreases hi - start,
    {
        let top = if hi - start <= chunk_size {
            hi
        } else {
            start + chunk_size
        };
        let ghost before = entries@;
        partition_tiles(entries, start, top, degree, starts);
        let ghost after = entries@;
        proof {
            let c = chunk_size as int;
            assert(after.subrange(lo as int, hi as int).to_multiset() == before.subrange(lo as int, hi as int).to_multiset()) by {
                assert forall|i: int| 0 <= i < hi - lo && (i < start - lo || top - lo <= i) implies #[trigger] after.subrange(lo as int, hi as int)[i] == before.subrange(lo as int, hi as int)[i] by {
                    assert(after[lo + i] == before[lo + i]);
                }
                assert(after.subrange(lo as int, hi as int).subrange(start - lo, top - lo) =~= after.subrange(start as int, top as int));
                assert(before.subrange(lo as int, hi as int).subrange(start - lo, top - lo) =~= before.subrange(start as int, top as int));
                lemma_splice_multiset(before.subrange(lo as int, hi as int), after.subrange(lo as int, hi as int), start - lo, top - lo);
            }
            assert forall|i: int, j: int|
                lo <= i < j < hi && run_of(i, lo as int, c * ns) < run_of(j, lo as int, c * ns) implies center_key_spec(
                    #[trigger] after[i].1,
                    true,
                ) <= center_key_spec(#[trigger] after[j].1, true) by {
                let in_i = start <= i < top;
                let in_j = start <= j < top;
                if in_i && in_j {
                    lemma_same_tile(lo as int, c, ns, start as int, i, j);
                } else if in_i {
                    let b = lemma_from_range(before, after, start as int, top as int, i);
                    assert(after[j] == before[j]);
                    lemma_same_tile(lo as int, c, ns, start as int, b, i);
                } else if in_j {
                    let b = lemma_from_range(before, after, start as int, top as int, j);
                    assert(after[i] == before[i]);
                    lemma_same_tile(lo as int, c, ns, start as int, b, j);
                } else {
                    assert(after[i] == before[i] && after[j] == before[j]);
                }
            }
            assert forall|i: int, j: int|
                lo <= i < j < hi && run_of(i, lo as int, c * ns) == run_of(j, lo as int, c * ns) && run_of(i, lo as int, c) < run_of(j, lo as int, c)
                    implies center_key_spec(#[trigger] after[i].1, false) <= center_key_spec(#[trigger] after[j].1, false) by {
                let in_i = start <= i < top;
                let in_j = start <= j < top;
                if in_i && in_j {
                    lemma_same_tile(lo as int, c, ns, start as int, i, j);
                } else if in_i {
                    let b = lemma_from_range(before, after, start as int, top as int, i);
                    assert(after[j] == before[j]);
                    lemma_same_tile(lo as int, c, ns, start as int, b, i);
                } else if in_j {
                    let b = lemma_from_range(before, after, start as int, top as int, j);
                    assert(after[i] == before[i]);
                    lemma_same_tile(lo as int, c, ns, start as int, b, j);
                } else {
                    assert(after[i] == before[i] && after[j] == before[j]);
                }
            }
            if top < hi {
                lemma_aligned(lo as int, c, start as int, 1);
            }
        }
        start = top;
    }
}

} // verus!
