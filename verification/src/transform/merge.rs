//! Merge transform: collapse a contiguous run of axes into one, when their
//! strides chain compatibly; the inverse of tiling. Incompatible runs report
//! failure instead of fabricating an invalid layout.

use vstd::prelude::*;

verus! {

use std::ops::Range;
use crate::{ArrayLayout, LayoutView, extent_prod};
use crate::transform::tile::{TileOrder, tile_arg_ok, tile_factor, tile_view};

/// Magnitude of a stride, as an unbounded integer.
pub open spec fn abs_of(s: isize) -> int {
    if s < 0 {
        -(s as int)
    } else {
        s as int
    }
}

/// The (extent, stride) pairs of the axes in `[lo, hi)`.
pub open spec fn run_pairs(v: LayoutView, lo: int, hi: int) -> Seq<(usize, isize)> {
    Seq::new((hi - lo) as nat, |j: int| (v.shape[lo + j], v.strides[lo + j]))
}

/// Inserts a pair into a stride-magnitude-sorted sequence, after every pair
/// of equal magnitude already there.
pub open spec fn insert_by_abs(sorted: Seq<(usize, isize)>, p: (usize, isize)) -> Seq<
    (usize, isize),
>
    decreases sorted.len(),
{
    if sorted.len() == 0 {
        seq![p]
    } else if abs_of(p.1) < abs_of(sorted.last().1) {
        insert_by_abs(sorted.drop_last(), p).push(sorted.last())
    } else {
        sorted.push(p)
    }
}

/// The pairs sorted by stride magnitude, ascending; pairs of equal magnitude
/// keep their original order.
pub open spec fn sort_by_abs(pairs: Seq<(usize, isize)>) -> Seq<(usize, isize)>
    decreases pairs.len(),
{
    if pairs.len() == 0 {
        Seq::empty()
    } else {
        insert_by_abs(sort_by_abs(pairs.drop_last()), pairs.last())
    }
}

/// Whether two magnitude-adjacent pairs may merge: either extent is
/// degenerate, or the larger-magnitude stride equals the smaller-magnitude
/// stride times that pair's extent.
pub open spec fn pair_compat(l: (usize, isize), r: (usize, isize)) -> bool {
    ||| l.0 == 1
    ||| r.0 == 1
    ||| r.1 == l.1 * l.0
}

/// Whether every magnitude-adjacent pair of the sorted run is compatible.
pub open spec fn chain_ok(sorted: Seq<(usize, isize)>) -> bool {
    forall|k: int| 1 <= k < sorted.len() ==> pair_compat(sorted[k - 1], #[trigger] sorted[k])
}

/// Product of the first `k` extents of a pair sequence.
pub open spec fn pairs_extent(pairs: Seq<(usize, isize)>, k: int) -> int
    decreases k,
{
    if k <= 0 {
        1
    } else {
        pairs_extent(pairs, k - 1) * pairs[k - 1].0
    }
}

/// Whether the axes `[lo, hi)` can merge into one.
pub open spec fn merge_run_ok(v: LayoutView, lo: int, hi: int) -> bool {
    chain_ok(sort_by_abs(run_pairs(v, lo, hi)))
}

/// The layout after the axes `[lo, hi)` merge: one axis in their place, its
/// extent the product of theirs and its stride the smallest-magnitude stride
/// of the run.
pub open spec fn merge_one_view(v: LayoutView, lo: int, hi: int) -> LayoutView {
    let sorted = sort_by_abs(run_pairs(v, lo, hi));
    LayoutView {
        offset: v.offset,
        shape: v.shape.take(lo) + seq![pairs_extent(sorted, sorted.len() as int) as usize]
            + v.shape.skip(hi),
        strides: v.strides.take(lo) + seq![sorted[0].1] + v.strides.skip(hi),
    }
}

/// The layout after several merges, applied from the last (highest) range
/// backwards so each range keeps its original axis positions, or `None` as
/// soon as any run is incompatible.
pub open spec fn merge_many_view(v: LayoutView, args: Seq<Range<usize>>) -> Option<LayoutView>
    decreases args.len(),
{
    if args.len() == 0 {
        Some(v)
    } else {
        match merge_many_view(v, args.subrange(1, args.len() as int)) {
            Some(w) => if merge_run_ok(w, args[0].start as int, args[0].end as int) {
                Some(merge_one_view(w, args[0].start as int, args[0].end as int))
            } else {
                None
            },
            None => None,
        }
    }
}

/// What one merge range asks of the layout: a non-empty run of axes inside
/// the rank, extents that fit the machine's signed words, and a merged
/// extent whose partial products fit the machine's unsigned words.
pub open spec fn merge_range_ok(v: LayoutView, lo: int, hi: int) -> bool {
    &&& 0 <= lo < hi <= v.rank()
    &&& forall|a: int| lo <= a < hi ==> #[trigger] v.shape[a] <= isize::MAX
    &&& forall|t: int|
        0 <= t <= hi - lo ==> #[trigger] pairs_extent(sort_by_abs(run_pairs(v, lo, hi)), t)
            <= usize::MAX
}

proof fn lemma_insert_len(sorted: Seq<(usize, isize)>, p: (usize, isize))
    ensures
        insert_by_abs(sorted, p).len() == sorted.len() + 1,
    decreases sorted.len(),
{
    if sorted.len() > 0 && abs_of(p.1) < abs_of(sorted.last().1) {
        lemma_insert_len(sorted.drop_last(), p);
    }
}

proof fn lemma_sort_len(pairs: Seq<(usize, isize)>)
    ensures
        sort_by_abs(pairs).len() == pairs.len(),
    decreases pairs.len(),
{
    if pairs.len() > 0 {
        lemma_sort_len(pairs.drop_last());
        lemma_insert_len(sort_by_abs(pairs.drop_last()), pairs.last());
    }
}

proof fn lemma_insert_contains(sorted: Seq<(usize, isize)>, p: (usize, isize), y: (usize, isize))
    ensures
        insert_by_abs(sorted, p).contains(y) <==> (sorted.contains(y) || y == p),
    decreases sorted.len(),
{
    vstd::seq_lib::lemma_seq_contains_after_push(sorted, p, y);
    if sorted.len() == 0 {
        assert(seq![p] =~= Seq::<(usize, isize)>::empty().push(p));
        vstd::seq_lib::lemma_seq_contains_after_push(Seq::<(usize, isize)>::empty(), p, y);
    }
    if sorted.len() > 0 && abs_of(p.1) < abs_of(sorted.last().1) {
        lemma_insert_contains(sorted.drop_last(), p, y);
        vstd::seq_lib::lemma_seq_contains_after_push(
            insert_by_abs(sorted.drop_last(), p),
            sorted.last(),
            y,
        );
        assert(sorted.contains(y) <==> (sorted.drop_last().contains(y) || y == sorted.last())) by {
            assert(sorted.drop_last().push(sorted.last()) =~= sorted);
            vstd::seq_lib::lemma_seq_contains_after_push(sorted.drop_last(), sorted.last(), y);
        }
    }
}

proof fn lemma_sort_contains(pairs: Seq<(usize, isize)>, y: (usize, isize))
    ensures
        sort_by_abs(pairs).contains(y) <==> pairs.contains(y),
    decreases pairs.len(),
{
    if pairs.len() > 0 {
        lemma_sort_contains(pairs.drop_last(), y);
        lemma_insert_contains(sort_by_abs(pairs.drop_last()), pairs.last(), y);
        assert(pairs.contains(y) <==> (pairs.drop_last().contains(y) || y == pairs.last())) by {
            assert(pairs.drop_last().push(pairs.last()) =~= pairs);
            vstd::seq_lib::lemma_seq_contains_after_push(pairs.drop_last(), pairs.last(), y);
        }
    }
}

/// Where an element lands when inserted: right after the rightmost element
/// whose stride magnitude does not exceed its own.
proof fn lemma_insert_at(pre: Seq<(usize, isize)>, x: (usize, isize), j: int)
    requires
        0 <= j <= pre.len(),
        forall|w: int| j <= w < pre.len() ==> abs_of((#[trigger] pre[w]).1) > abs_of(x.1),
        j > 0 ==> abs_of(pre[j - 1].1) <= abs_of(x.1),
    ensures
        insert_by_abs(pre, x) == pre.take(j) + seq![x] + pre.skip(j),
    decreases pre.len(),
{
    if j == pre.len() {
        assert(insert_by_abs(pre, x) == pre.push(x));
        assert(pre.push(x) =~= pre.take(j) + seq![x] + pre.skip(j));
    } else {
        assert(abs_of(pre.last().1) > abs_of(x.1));
        lemma_insert_at(pre.drop_last(), x, j);
        assert(insert_by_abs(pre, x) == (pre.drop_last().take(j) + seq![x] + pre.drop_last().skip(
            j,
        )).push(pre.last()));
        assert((pre.drop_last().take(j) + seq![x] + pre.drop_last().skip(j)).push(pre.last())
            =~= pre.take(j) + seq![x] + pre.skip(j));
    }
}

/// A failed merge stays failed when the earlier ranges are applied on top.
proof fn lemma_merge_many_none(v: LayoutView, args: Seq<Range<usize>>, m: int)
    requires
        0 <= m <= args.len(),
        merge_many_view(v, args.skip(m)) is None,
    ensures
        merge_many_view(v, args) is None,
    decreases m,
{
    if m == 0 {
        assert(args.skip(0) =~= args);
    } else {
        assert(args.skip(m - 1).subrange(1, args.skip(m - 1).len() as int) =~= args.skip(m));
        assert(merge_many_view(v, args.skip(m - 1)) is None);
        lemma_merge_many_none(v, args, m - 1);
    }
}

/// Merging ranges that all start strictly above `a` leaves every axis at or
/// below `a`, and the offset, untouched.
#[verifier::rlimit(60)]
proof fn lemma_merge_many_prefix(v: LayoutView, args: Seq<Range<usize>>, a: int)
    requires
        v.wf(),
        a < v.rank(),
        forall|k: int|
            0 <= k < args.len() ==> a < (#[trigger] args[k]).start < args[k].end <= v.rank(),
        forall|k: int| 1 <= k < args.len() ==> (#[trigger] args[k]).start >= args[k - 1].end,
    ensures
        merge_many_view(v, args) is Some ==> merge_many_view(v, args).unwrap().wf(),
        merge_many_view(v, args) is Some ==> merge_many_view(v, args).unwrap().shape.len() > a,
        merge_many_view(v, args) is Some ==> merge_many_view(v, args).unwrap().offset == v.offset,
        forall|j: int|
            0 <= j <= a && merge_many_view(v, args) is Some ==> #[trigger] merge_many_view(
                v,
                args,
            ).unwrap().shape[j] == v.shape[j],
        forall|j: int|
            0 <= j <= a && merge_many_view(v, args) is Some ==> #[trigger] merge_many_view(
                v,
                args,
            ).unwrap().strides[j] == v.strides[j],
    decreases args.len(),
{
    if args.len() > 0 {
        let tail = args.subrange(1, args.len() as int);
        assert forall|k: int|
            0 <= k < tail.len() implies (args[0].end - 1) < (#[trigger] tail[k]).start
            < tail[k].end <= v.rank() by {
            assert(tail[k] == args[k + 1]);
            if k == 0 {
                assert(args[1].start >= args[0].end);
            } else {
                lemma_range_chain(args, k + 1);
            }
        }
        assert forall|k: int|
            1 <= k < tail.len() implies (#[trigger] tail[k]).start >= tail[k - 1].end by {
            assert(tail[k] == args[k + 1]);
            assert(tail[k - 1] == args[k]);
        }
        lemma_merge_many_prefix(v, tail, args[0].end - 1);
        if merge_many_view(v, tail) is Some {
            let inner = merge_many_view(v, tail).unwrap();
            let lo = args[0].start as int;
            let hi = args[0].end as int;
            if merge_run_ok(inner, lo, hi) {
                let w = merge_one_view(inner, lo, hi);
                assert(merge_many_view(v, args) == Some(w));
                assert(inner.shape.len() > hi - 1);
                assert(w.shape.len() == lo + 1 + (inner.shape.len() - hi));
                assert(w.strides.len() == lo + 1 + (inner.strides.len() - hi));
                assert forall|j: int|
                    0 <= j <= a && merge_many_view(v, args) is Some implies #[trigger] merge_many_view(
                    v,
                    args,
                ).unwrap().shape[j] == v.shape[j] by {
                    assert(j < lo);
                    assert(w.shape[j] == inner.shape.take(lo)[j]);
                    assert(inner.shape[j] == v.shape[j]);
                }
                assert forall|j: int|
                    0 <= j <= a && merge_many_view(v, args) is Some implies #[trigger] merge_many_view(
                    v,
                    args,
                ).unwrap().strides[j] == v.strides[j] by {
                    assert(j < lo);
                    assert(w.strides[j] == inner.strides.take(lo)[j]);
                    assert(inner.strides[j] == v.strides[j]);
                }
            }
        }
    }
}

/// Whether `|a| > |b|`, computed without forming either magnitude, so the
/// most negative machine value needs no special case.
fn abs_gt(a: isize, b: isize) -> (r: bool)
    ensures
        r == (abs_of(a) > abs_of(b)),
{
    if a >= 0 && b >= 0 {
        a > b
    } else if a < 0 && b < 0 {
        a < b
    } else if a >= 0 {
        a + b > 0
    } else {
        a + b < 0
    }
}

/// Sorts the pairs by stride magnitude with a stable insertion sort.
#[verifier::loop_isolation(false)]
fn sort_pairs(pairs: Vec<(usize, isize)>) -> (r: Vec<(usize, isize)>)
    ensures
        r@ == sort_by_abs(pairs@),
{
    let ghost orig = pairs@;
    let mut v = pairs;
    let n = v.len();
    if n == 0 {
        proof {
            assert(orig =~= Seq::<(usize, isize)>::empty());
            assert(v@ =~= sort_by_abs(orig));
        }
        return v;
    }
    let mut i: usize = 1;
    proof {
        let e = Seq::<(usize, isize)>::empty();
        assert(orig.take(1).drop_last() =~= e);
        assert(sort_by_abs(e) == e);
        assert(orig.take(1).last() == orig[0]);
        assert(sort_by_abs(orig.take(1)) == insert_by_abs(e, orig[0]));
        assert(insert_by_abs(e, orig[0]) == seq![orig[0]]);
        assert(v@.take(1) =~= seq![orig[0]]);
    }
    while i < n
        invariant
            1 <= i <= n,
            v@.len() == n,
            orig.len() == n,
            v@.take(i as int) == sort_by_abs(orig.take(i as int)),
            v@.skip(i as int) == orig.skip(i as int),
        decreases n - i,
    {
        let ghost pre = v@.take(i as int);
        let x = v[i];
        proof {
            lemma_sort_len(orig.take(i as int));
            assert(v@[i as int] == orig.skip(i as int)[0]);
            assert(x == orig[i as int]);
            assert forall|w: int| 0 <= w < n - i - 1 implies #[trigger] v@.skip(i + 1)[w]
                == orig.skip(i + 1)[w] by {
                assert(v@.skip(i as int)[w + 1] == orig.skip(i as int)[w + 1]);
                assert(v@.skip(i as int)[w + 1] == v@[i + 1 + w]);
                assert(orig.skip(i as int)[w + 1] == orig[i + 1 + w]);
            }
            assert(v@.skip(i + 1) =~= orig.skip(i + 1));
            assert(pre.take(i as int) =~= pre);
            assert(pre.skip(i as int) =~= Seq::<(usize, isize)>::empty());
            assert(v@.take(i + 1) =~= pre.take(i as int) + seq![x] + pre.skip(i as int));
        }
        let mut j: usize = i;
        while j > 0 && abs_gt(v[j - 1].1, v[j].1)
            invariant
                0 <= j <= i,
                v@.len() == n,
                pre.len() == i,
                v@.take(i + 1) =~= pre.take(j as int) + seq![x] + pre.skip(j as int),
                v@.skip(i + 1) == orig.skip(i + 1),
                forall|w: int| j <= w < i ==> abs_of((#[trigger] pre[w]).1) > abs_of(x.1),
            decreases j,
        {
            let ghost v0 = v@;
            let ghost form = pre.take(j as int) + seq![x] + pre.skip(j as int);
            proof {
                assert(v0[j - 1] == v0.take(i + 1)[j - 1]);
                assert(form[j - 1] == pre.take(j as int)[j - 1]);
                assert(v0[j - 1] == pre[j - 1]);
                assert(v0[j as int] == v0.take(i + 1)[j as int]);
                assert(form[j as int] == x);
                assert(v0[j as int] == x);
            }
            let tmp = v[j - 1];
            v[j - 1] = v[j];
            v[j] = tmp;
            proof {
                let target = pre.take(j - 1) + seq![x] + pre.skip(j - 1);
                assert(v@ == v0.update(j - 1, x).update(j as int, pre[j - 1]));
                assert forall|w: int| 0 <= w < i + 1 implies #[trigger] v@.take(i + 1)[w]
                    == target[w] by {
                    assert(v@.take(i + 1)[w] == v@[w]);
                    assert(v0.take(i + 1)[w] == v0[w]);
                    assert(v0[w] == form[w]);
                    if w == j - 1 {
                        assert(target[w] == x);
                    } else if w == j {
                        assert(target[w] == pre.skip(j - 1)[0]);
                        assert(pre.skip(j - 1)[0] == pre[j - 1]);
                    } else if w < j - 1 {
                        assert(v@[w] == form[w]);
                        assert(form[w] == pre.take(j as int)[w]);
                        assert(target[w] == pre.take(j - 1)[w]);
                    } else {
                        assert(v@[w] == form[w]);
                        assert(form[w] == pre.skip(j as int)[w - j - 1]);
                        assert(pre.skip(j as int)[w - j - 1] == pre[w - 1]);
                        assert(target[w] == pre.skip(j - 1)[w - j]);
                        assert(pre.skip(j - 1)[w - j] == pre[w - 1]);
                    }
                }
                assert(v@.take(i + 1) =~= target);
                assert forall|w: int| 0 <= w < n - i - 1 implies #[trigger] v@.skip(i + 1)[w]
                    == orig.skip(i + 1)[w] by {
                    assert(v@[i + 1 + w] == v0[i + 1 + w]);
                    assert(v0.skip(i + 1)[w] == v0[i + 1 + w]);
                    assert(v@.skip(i + 1)[w] == v@[i + 1 + w]);
                }
                assert(v@.skip(i + 1) =~= orig.skip(i + 1));
            }
            j -= 1;
        }
        proof {
            if j > 0 {
                assert(v@.take(i + 1)[j - 1] == pre[j - 1]);
                assert(v@.take(i + 1)[j as int] == x);
                assert(abs_of(pre[j - 1].1) <= abs_of(x.1));
            }
            lemma_insert_at(pre, x, j as int);
            assert(orig.take(i + 1).drop_last() =~= orig.take(i as int));
            assert(orig.take(i + 1).last() == orig[i as int]);
            assert(sort_by_abs(orig.take(i + 1)) == insert_by_abs(pre, x));
            assert(v@.skip(i + 1) =~= orig.skip(i + 1));
        }
        i += 1;
    }
    proof {
        assert(orig.take(n as int) =~= orig);
        assert(v@.take(n as int) =~= v@);
    }
    v
}

impl<const N: usize> ArrayLayout<N> {
    /// Collapses the axes `[lo, hi)` into one, or reports that their strides
    /// cannot chain.
    #[verifier::loop_isolation(false)]
    fn merge_one(&self, lo: usize, hi: usize) -> (r: Option<Self>)
        requires
            merge_range_ok(self@, lo as int, hi as int),
        ensures
            r is Some <==> merge_run_ok(self@, lo as int, hi as int),
            r is Some ==> r.unwrap()@ == merge_one_view(self@, lo as int, hi as int),
    {
        proof {
            use_type_invariant(self);
            self.inv_implies_wf();
        }
        let n = self.ndim();
        let shape = self.shape();
        let strides = self.strides();
        let ghost rp = run_pairs(self@, lo as int, hi as int);
        let mut pairs: Vec<(usize, isize)> = Vec::new();
        let mut a: usize = lo;
        while a < hi
            invariant
                lo <= a <= hi,
                pairs@ =~= run_pairs(self@, lo as int, a as int),
            decreases hi - a,
        {
            proof {
                assert(run_pairs(self@, lo as int, a + 1) =~= run_pairs(
                    self@,
                    lo as int,
                    a as int,
                ).push((self@.shape[a as int], self@.strides[a as int])));
            }
            pairs.push((shape[a], strides[a]));
            a += 1;
        }
        proof {
            assert(pairs@ =~= rp);
        }
        let sorted = sort_pairs(pairs);
        let ghost sp = sort_by_abs(rp);
        proof {
            lemma_sort_len(rp);
            assert forall|w: int| 0 <= w < sp.len() implies (#[trigger] sp[w]).0
                <= isize::MAX by {
                assert(sp.contains(sp[w]));
                lemma_sort_contains(rp, sp[w]);
                let q = rp.index_of(sp[w]);
                assert(rp[q] == sp[w]);
                assert(rp[q].0 == self@.shape[lo + q]);
            }
        }
        let s0 = sorted[0].1;
        let mut d: usize = sorted[0].0;
        proof {
            assert(pairs_extent(sp, 0) == 1);
            assert(pairs_extent(sp, 1) == pairs_extent(sp, 0) * sp[0].0);
            let e0 = sp[0].0 as int;
            assert(1 * e0 == e0) by (nonlinear_arith);
            assert(d == sp[0].0);
        }
        let mut k: usize = 1;
        while k < sorted.len()
            invariant
                1 <= k <= sp.len(),
                d == pairs_extent(sp, k as int),
                forall|w: int| 1 <= w < k ==> pair_compat(sp[w - 1], #[trigger] sp[w]),
            decreases sp.len() - k,
        {
            let l = sorted[k - 1];
            let r = sorted[k];
            let mut ok = l.0 == 1 || r.0 == 1;
            if !ok {
                match l.1.checked_mul(l.0 as isize) {
                    Some(p) => {
                        if r.1 == p {
                            ok = true;
                        }
                    },
                    None => {},
                }
            }
            proof {
                assert(ok == pair_compat(sp[k - 1], sp[k as int]));
            }
            if !ok {
                proof {
                    assert(!chain_ok(sp));
                }
                return None;
            }
            proof {
                assert(pairs_extent(sp, k + 1) == pairs_extent(sp, k as int) * sp[k as int].0);
                assert(pairs_extent(sp, k + 1) <= usize::MAX);
                assert(pairs_extent(sp, k + 1) >= 0) by {
                    lemma_pairs_extent_nonneg(sp, k + 1);
                }
            }
            d = d * r.0;
            k += 1;
        }
        proof {
            assert(chain_ok(sp));
        }
        let mut new_shape: Vec<usize> = Vec::new();
        let mut new_strides: Vec<isize> = Vec::new();
        let mut i: usize = 0;
        while i < lo
            invariant
                i <= lo,
                new_shape@ == self@.shape.take(i as int),
                new_strides@ == self@.strides.take(i as int),
            decreases lo - i,
        {
            proof {
                assert(self@.shape.take(i + 1) =~= self@.shape.take(i as int).push(
                    self@.shape[i as int],
                ));
                assert(self@.strides.take(i + 1) =~= self@.strides.take(i as int).push(
                    self@.strides[i as int],
                ));
            }
            new_shape.push(shape[i]);
            new_strides.push(strides[i]);
            i += 1;
        }
        new_shape.push(d);
        new_strides.push(s0);
        proof {
            assert(new_shape@ =~= self@.shape.take(lo as int) + seq![
                pairs_extent(sp, sp.len() as int) as usize,
            ] + self@.shape.subrange(hi as int, hi as int));
            assert(new_strides@ =~= self@.strides.take(lo as int) + seq![sp[0].1]
                + self@.strides.subrange(hi as int, hi as int));
        }
        let mut i: usize = hi;
        while i < n
            invariant
                hi <= i <= n,
                new_shape@ == self@.shape.take(lo as int) + seq![
                    pairs_extent(sp, sp.len() as int) as usize,
                ] + self@.shape.subrange(hi as int, i as int),
                new_strides@ == self@.strides.take(lo as int) + seq![sp[0].1]
                    + self@.strides.subrange(hi as int, i as int),
            decreases n - i,
        {
            proof {
                assert(self@.shape.subrange(hi as int, i + 1) =~= self@.shape.subrange(
                    hi as int,
                    i as int,
                ).push(self@.shape[i as int]));
                assert(self@.shape.take(lo as int) + seq![
                    pairs_extent(sp, sp.len() as int) as usize,
                ] + self@.shape.subrange(hi as int, i + 1) =~= (self@.shape.take(lo as int) + seq![
                    pairs_extent(sp, sp.len() as int) as usize,
                ] + self@.shape.subrange(hi as int, i as int)).push(self@.shape[i as int]));
                assert(self@.strides.subrange(hi as int, i + 1) =~= self@.strides.subrange(
                    hi as int,
                    i as int,
                ).push(self@.strides[i as int]));
                assert(self@.strides.take(lo as int) + seq![sp[0].1] + self@.strides.subrange(
                    hi as int,
                    i + 1,
                ) =~= (self@.strides.take(lo as int) + seq![sp[0].1] + self@.strides.subrange(
                    hi as int,
                    i as int,
                )).push(self@.strides[i as int]));
            }
            new_shape.push(shape[i]);
            new_strides.push(strides[i]);
            i += 1;
        }
        proof {
            assert(self@.shape.subrange(hi as int, n as int) =~= self@.shape.skip(hi as int));
            assert(self@.strides.subrange(hi as int, n as int) =~= self@.strides.skip(hi as int));
            assert(new_shape@ =~= self@.shape.take(lo as int) + seq![
                pairs_extent(sp, sp.len() as int) as usize,
            ] + self@.shape.subrange(hi as int, i as int));
        }
        let out = Self::from_parts(self.offset(), new_shape, new_strides);
        proof {
            assert(out@ =~= merge_one_view(self@, lo as int, hi as int));
        }
        Some(out)
    }

    /// Collapses one contiguous, non-empty run of axes into a single axis,
    /// or returns `None` when the run's strides cannot chain.
    pub fn merge(&self, range: Range<usize>) -> (r: Option<Self>)
        requires
            merge_range_ok(self@, range.start as int, range.end as int),
        ensures
            r is Some <==> merge_run_ok(self@, range.start as int, range.end as int),
            r is Some ==> r.unwrap()@ == merge_one_view(
                self@,
                range.start as int,
                range.end as int,
            ),
    {
        self.merge_one(range.start, range.end)
    }

    /// Merges several disjoint, ascending runs at once, or returns `None`
    /// when any run's strides cannot chain. The result is the same as
    /// merging each run separately.
    #[verifier::rlimit(100)]
    pub fn merge_many(&self, args: &[Range<usize>]) -> (r: Option<Self>)
        requires
            forall|k: int|
                0 <= k < args@.len() ==> merge_range_ok(
                    self@,
                    (#[trigger] args@[k]).start as int,
                    args@[k].end as int,
                ),
            forall|k: int| 1 <= k < args@.len() ==> (#[trigger] args@[k]).start >= args@[k - 1].end,
        ensures
            r is Some <==> merge_many_view(self@, args@) is Some,
            r is Some ==> r.unwrap()@ == merge_many_view(self@, args@).unwrap(),
    {
        proof {
            use_type_invariant(self);
            self.inv_implies_wf();
        }
        let mut cur = self.clone();
        let mut k: usize = args.len();
        proof {
            assert(args@.skip(args@.len() as int) =~= Seq::<Range<usize>>::empty());
        }
        while k > 0
            invariant
                k <= args@.len(),
                self@.wf(),
                forall|q: int|
                    0 <= q < args@.len() ==> merge_range_ok(
                        self@,
                        (#[trigger] args@[q]).start as int,
                        args@[q].end as int,
                    ),
                forall|q: int|
                    1 <= q < args@.len() ==> (#[trigger] args@[q]).start >= args@[q - 1].end,
                merge_many_view(self@, args@.skip(k as int)) == Some(cur@),
            decreases k,
        {
            k -= 1;
            let rg = vstd::slice::slice_index_get(args, k);
            let lo = rg.start;
            let hi = rg.end;
            let ghost tail = args@.skip(k + 1);
            proof {
                lemma_merge_many_tail(self@, args@, k as int);
                assert(merge_range_ok(self@, lo as int, hi as int));
                lemma_merge_range_ok_transfer(self@, cur@, lo as int, hi as int);
            }
            let step = cur.merge_one(lo, hi);
            proof {
                assert(args@.skip(k as int).subrange(1, args@.skip(k as int).len() as int)
                    =~= args@.skip(k + 1));
                assert(args@.skip(k as int)[0] == args@[k as int]);
            }
            match step {
                Some(next) => {
                    cur = next;
                },
                None => {
                    proof {
                        assert(merge_many_view(self@, args@.skip(k as int)) is None);
                        lemma_merge_many_none(self@, args@, k as int);
                        assert(args@.skip(0) =~= args@);
                    }
                    return None;
                },
            }
        }
        proof {
            assert(args@.skip(0) =~= args@);
        }
        Some(cur)
    }
}

proof fn lemma_pairs_extent_nonneg(pairs: Seq<(usize, isize)>, k: int)
    ensures
        pairs_extent(pairs, k) >= 0,
    decreases k,
{
    if k > 0 {
        lemma_pairs_extent_nonneg(pairs, k - 1);
        let p = pairs_extent(pairs, k - 1);
        let e = pairs[k - 1].0 as int;
        assert(p * e >= 0) by (nonlinear_arith)
            requires
                p >= 0,
                e >= 0,
        ;
    }
}

/// A run of axes reads the same on two layouts that agree below its end, so
/// what one asks and whether it merges carry over.
proof fn lemma_merge_range_ok_transfer(v: LayoutView, w: LayoutView, lo: int, hi: int)
    requires
        merge_range_ok(v, lo, hi),
        w.wf(),
        w.shape.len() > hi - 1,
        forall|j: int| 0 <= j <= hi - 1 ==> #[trigger] w.shape[j] == v.shape[j],
        forall|j: int| 0 <= j <= hi - 1 ==> #[trigger] w.strides[j] == v.strides[j],
    ensures
        merge_range_ok(w, lo, hi),
        run_pairs(w, lo, hi) == run_pairs(v, lo, hi),
{
    assert(run_pairs(w, lo, hi) =~= run_pairs(v, lo, hi));
}

/// When the merge result of the ranges after position `k` exists, its axes
/// below the end of range `k` are exactly the original ones.
#[verifier::rlimit(60)]
proof fn lemma_merge_many_tail(v: LayoutView, args: Seq<Range<usize>>, k: int)
    requires
        v.wf(),
        0 <= k < args.len(),
        forall|q: int|
            0 <= q < args.len() ==> merge_range_ok(
                v,
                (#[trigger] args[q]).start as int,
                args[q].end as int,
            ),
        forall|q: int| 1 <= q < args.len() ==> (#[trigger] args[q]).start >= args[q - 1].end,
    ensures
        merge_many_view(v, args.skip(k + 1)) is Some ==> {
            let w = merge_many_view(v, args.skip(k + 1)).unwrap();
            &&& w.wf()
            &&& w.shape.len() > args[k].end - 1
            &&& w.offset == v.offset
            &&& forall|j: int| 0 <= j <= args[k].end - 1 ==> #[trigger] w.shape[j] == v.shape[j]
            &&& forall|j: int| 0 <= j <= args[k].end - 1 ==> #[trigger] w.strides[j] == v.strides[j]
        },
{
    let tail = args.skip(k + 1);
    let a = args[k].end - 1;
    assert(merge_range_ok(v, args[k].start as int, args[k].end as int));
    assert(a < v.rank());
    assert forall|q: int|
        0 <= q < tail.len() implies (#[trigger] tail[q]).start < tail[q].end <= v.rank() by {
        assert(tail[q] == args[k + 1 + q]);
        assert(merge_range_ok(v, args[k + 1 + q].start as int, args[k + 1 + q].end as int));
    }
    assert forall|q: int| 1 <= q < tail.len() implies (#[trigger] tail[q]).start >= tail[q
        - 1].end by {
        assert(tail[q] == args[k + 1 + q]);
        assert(tail[q - 1] == args[k + q]);
    }
    assert forall|w: int|
        0 <= w < tail.len() implies a < (#[trigger] tail[w]).start < tail[w].end <= v.rank() by {
        assert(tail[0] == args[k + 1]);
        assert(args[k + 1].start >= args[k].end);
        if w > 0 {
            lemma_range_chain(tail, w);
        }
    }
    lemma_merge_many_prefix(v, tail, a);
    if merge_many_view(v, tail) is Some {
        let w = merge_many_view(v, tail).unwrap();
        assert forall|j: int| 0 <= j <= a implies #[trigger] w.shape[j] == v.shape[j] by {
            assert(merge_many_view(v, tail).unwrap().shape[j] == v.shape[j]);
        }
        assert forall|j: int| 0 <= j <= a implies #[trigger] w.strides[j] == v.strides[j] by {
            assert(merge_many_view(v, tail).unwrap().strides[j] == v.strides[j]);
        }
    }
}

/// Tile/merge inverse: after splitting an axis into two non-degenerate
/// tiles, under either ordering policy, merging the two new axes always
/// succeeds and restores the original layout. (A tile of extent zero makes
/// the whole axis empty and its stride unrecoverable, so such tiles are
/// excluded.)
pub proof fn lemma_tile_merge_inverse(
    v: LayoutView,
    axis: usize,
    a: usize,
    b: usize,
    order: TileOrder,
)
    requires
        v.wf(),
        a >= 1,
        b >= 1,
        tile_arg_ok(v, axis as int, seq![a, b], order),
    ensures
        merge_run_ok(tile_view(v, axis as int, seq![a, b], order), axis as int, axis + 2),
        merge_one_view(tile_view(v, axis as int, seq![a, b], order), axis as int, axis + 2) == v,
{
    let tiles = seq![a, b];
    let x = axis as int;
    let t = tile_view(v, x, tiles, order);
    let si = v.strides[x] as int;
    let ai = a as int;
    let bi = b as int;
    assert(extent_prod(tiles, 2, 2) == 1);
    assert(extent_prod(tiles, 1, 2) == bi * extent_prod(tiles, 2, 2));
    assert(bi * 1 == bi) by (nonlinear_arith);
    assert(extent_prod(tiles, 0, 2) == ai * extent_prod(tiles, 1, 2));
    assert(ai * (bi * 1) == ai * bi) by (nonlinear_arith);
    assert(v.shape[x] == ai * bi);
    assert(extent_prod(tiles, 0, 0) == 1);
    assert(extent_prod(tiles, 1, 1) == 1);
    assert(extent_prod(tiles, 0, 1) == ai * extent_prod(tiles, 1, 1));
    assert(ai * 1 == ai) by (nonlinear_arith);
    let f0 = tile_factor(tiles, order, 0);
    let f1 = tile_factor(tiles, order, 1);
    match order {
        TileOrder::BigEndian => {
            assert(f0 == bi);
            assert(f1 == 1);
        },
        TileOrder::LittleEndian => {
            assert(f0 == 1);
            assert(f1 == ai);
        },
    }
    assert(isize::MIN <= v.strides[x] * tile_factor(tiles, order, 0) <= isize::MAX);
    assert(isize::MIN <= v.strides[x] * tile_factor(tiles, order, 1) <= isize::MAX);
    assert(si * 1 == si) by (nonlinear_arith);
    let s0 = (v.strides[x] * f0) as isize;
    let s1 = (v.strides[x] * f1) as isize;
    assert(s0 == si * f0 && s1 == si * f1);
    let p0 = (a, s0);
    let p1 = (b, s1);
    assert(t.shape[x] == a);
    assert(t.shape[x + 1] == b);
    assert(t.strides[x] == s0);
    assert(t.strides[x + 1] == s1);
    let rp = run_pairs(t, x, x + 2);
    assert(rp =~= seq![p0, p1]);
    let sp = sort_by_abs(rp);
    let e = Seq::<(usize, isize)>::empty();
    assert(rp.drop_last() =~= seq![p0]);
    assert(seq![p0].drop_last() =~= e);
    assert(sort_by_abs(e) == e);
    assert(seq![p0].last() == p0);
    assert(sort_by_abs(seq![p0]) == insert_by_abs(e, p0));
    assert(insert_by_abs(e, p0) == seq![p0]);
    assert(rp.last() == p1);
    assert(sp == insert_by_abs(seq![p0], p1));
    assert(seq![p0].last() == p0);
    if abs_of(p1.1) < abs_of(p0.1) {
        assert(sp == insert_by_abs(e, p1).push(p0));
        assert(insert_by_abs(e, p1) == seq![p1]);
        assert(sp =~= seq![p1, p0]);
        match order {
            TileOrder::BigEndian => {
                assert(pair_compat(sp[0], sp[1])) by {
                    assert(p0.1 == p1.1 * p1.0);
                }
            },
            TileOrder::LittleEndian => {
                assert(abs_of(s1) >= abs_of(s0)) by (nonlinear_arith)
                    requires
                        s1 == si * ai,
                        s0 == si,
                        ai >= 1,
                        abs_of(s1) == if s1 < 0 { -(s1 as int) } else { s1 as int },
                        abs_of(s0) == if s0 < 0 { -(s0 as int) } else { s0 as int },
                ;
                assert(false);
            },
        }
        assert(sp[0].1 == v.strides[x]) by {
            match order {
                TileOrder::BigEndian => {
                    assert(sp[0] == p1);
                },
                TileOrder::LittleEndian => {},
            }
        }
        assert(pairs_extent(sp, 0) == 1);
        assert(pairs_extent(sp, 1) == pairs_extent(sp, 0) * sp[0].0);
        assert(pairs_extent(sp, 2) == pairs_extent(sp, 1) * sp[1].0);
        assert((1 * bi) * ai == ai * bi) by (nonlinear_arith);
        assert(pairs_extent(sp, 2) == v.shape[x]);
    } else {
        assert(sp == seq![p0].push(p1));
        assert(sp =~= seq![p0, p1]);
        match order {
            TileOrder::BigEndian => {
                assert(si == 0 || bi == 1) by (nonlinear_arith)
                    requires
                        s1 == si,
                        s0 == si * bi,
                        bi >= 1,
                        !(abs_of(s1) < abs_of(s0)),
                        abs_of(s1) == if s1 < 0 { -(s1 as int) } else { s1 as int },
                        abs_of(s0) == if s0 < 0 { -(s0 as int) } else { s0 as int },
                ;
                if si == 0 {
                    assert(s0 == 0) by (nonlinear_arith)
                        requires
                            s0 == si * bi,
                            si == 0,
                    ;
                    let ll = sp[0].1 as int;
                    let le = sp[0].0 as int;
                    assert(ll * le == 0) by (nonlinear_arith)
                        requires
                            ll == 0,
                    ;
                    assert(pair_compat(sp[0], sp[1]));
                } else {
                    assert(bi == 1);
                    assert(si * 1 == si) by (nonlinear_arith);
                    assert(pair_compat(sp[0], sp[1])) by {
                        assert(sp[0].1 == sp[1].1 * sp[1].0);
                    }
                }
            },
            TileOrder::LittleEndian => {
                assert(pair_compat(sp[0], sp[1])) by {
                    assert(sp[1].1 == sp[0].1 * sp[0].0);
                }
            },
        }
        assert(sp[0].1 == v.strides[x]) by {
            match order {
                TileOrder::BigEndian => {
                    if si == 0 {
                        assert(s0 == 0) by (nonlinear_arith)
                            requires
                                s0 == si * bi,
                                si == 0,
                        ;
                    } else {
                        assert(bi == 1);
                    }
                },
                TileOrder::LittleEndian => {},
            }
        }
        assert(pairs_extent(sp, 0) == 1);
        assert(pairs_extent(sp, 1) == pairs_extent(sp, 0) * sp[0].0);
        assert(pairs_extent(sp, 2) == pairs_extent(sp, 1) * sp[1].0);
        assert((1 * ai) * bi == ai * bi) by (nonlinear_arith);
        assert(pairs_extent(sp, 2) == v.shape[x]);
    }
    assert forall|k: int| 1 <= k < sp.len() implies pair_compat(sp[k - 1], #[trigger] sp[k]) by {
        assert(k == 1);
    }
    assert(chain_ok(sp));
    let m = merge_one_view(t, x, x + 2);
    assert(t.shape.take(x) =~= v.shape.take(x));
    assert(t.shape.skip(x + 2) =~= v.shape.skip(x + 1));
    assert(t.strides.take(x) =~= v.strides.take(x));
    assert(t.strides.skip(x + 2) =~= v.strides.skip(x + 1));
    assert(m.shape =~= v.shape);
    assert(m.strides =~= v.strides);
    assert(m =~= v);
}

/// In a chain of ranges where each starts no earlier than its predecessor
/// ends, every later range starts after the first one ends.
proof fn lemma_range_chain(rs: Seq<Range<usize>>, w: int)
    requires
        0 <= w < rs.len(),
        forall|q: int| 0 <= q < rs.len() ==> (#[trigger] rs[q]).start < rs[q].end,
        forall|q: int| 1 <= q < rs.len() ==> (#[trigger] rs[q]).start >= rs[q - 1].end,
    ensures
        rs[0].end <= rs[w].end,
        w > 0 ==> rs[0].end <= rs[w].start,
    decreases w,
{
    if w > 0 {
        lemma_range_chain(rs, w - 1);
        assert(rs[w - 1].end <= rs[w].start);
    }
}

} // verus!
