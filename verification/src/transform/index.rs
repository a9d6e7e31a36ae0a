//! Index transform: fix one axis to a single coordinate, removing the axis
//! and folding its displacement into the offset.

use vstd::prelude::*;

verus! {

use crate::{ArrayLayout, LayoutView};
use crate::transform::ascending;

/// One axis–coordinate pair for [`ArrayLayout::index_many`].
#[derive(Clone, Copy, PartialEq, Eq, Structural, Debug)]
pub struct IndexArg {
    /// The axis to fix.
    pub axis: usize,
    /// The coordinate the axis is fixed to.
    pub index: usize,
}

/// The axes a sequence of index arguments targets, in argument order.
pub open spec fn index_axes(args: Seq<IndexArg>) -> Seq<usize> {
    args.map_values(|a: IndexArg| a.axis)
}

/// A sequence with the listed axes removed; the axes must be strictly
/// ascending positions of `s`, so removal from the last axis backwards
/// never disturbs an axis still to be removed.
pub open spec fn remove_axes<T>(s: Seq<T>, axes: Seq<usize>) -> Seq<T>
    decreases axes.len(),
{
    if axes.len() == 0 {
        s
    } else {
        remove_axes(s.remove(axes.last() as int), axes.drop_last())
    }
}

/// The offset after the first `k` index arguments have been folded in: each
/// argument moves the offset by its coordinate times its axis's stride.
pub open spec fn indexed_offset(v: LayoutView, args: Seq<IndexArg>, k: int) -> int
    decreases k,
{
    if k <= 0 {
        v.offset as int
    } else {
        indexed_offset(v, args, k - 1) + args[k - 1].index * v.strides[args[k - 1].axis as int]
    }
}

/// The layout after one axis is fixed to one coordinate.
pub open spec fn index_one_view(v: LayoutView, axis: int, idx: int) -> LayoutView {
    LayoutView {
        offset: (v.offset + idx * v.strides[axis]) as isize,
        shape: v.shape.remove(axis),
        strides: v.strides.remove(axis),
    }
}

/// The index arguments applied one at a time, highest axis first, so each
/// axis is still at its original position when its turn comes: what repeated
/// single-axis indexing produces.
pub open spec fn index_fold(v: LayoutView, args: Seq<IndexArg>) -> LayoutView
    decreases args.len(),
{
    if args.len() == 0 {
        v
    } else {
        index_one_view(
            index_fold(v, args.subrange(1, args.len() as int)),
            args[0].axis as int,
            args[0].index as int,
        )
    }
}

/// The offset after the arguments from `k` onward have been folded in.
pub open spec fn indexed_offset_from(v: LayoutView, args: Seq<IndexArg>, k: int) -> int
    decreases args.len() - k,
{
    if k >= args.len() {
        v.offset as int
    } else {
        indexed_offset_from(v, args, k + 1) + args[k].index * v.strides[args[k].axis as int]
    }
}

/// The same displacements added in either order reach the same offset.
proof fn lemma_offset_reorder(v: LayoutView, args: Seq<IndexArg>, k: int)
    requires
        0 <= k <= args.len(),
    ensures
        indexed_offset_from(v, args, k) == v.offset + indexed_offset(v, args, args.len() as int)
            - indexed_offset(v, args, k),
    decreases args.len() - k,
{
    if k < args.len() {
        lemma_offset_reorder(v, args, k + 1);
    }
}

/// Pushing onto the underlying sequence commutes with removing axes that all
/// lie strictly before the pushed element.
proof fn lemma_remove_axes_push<T>(s: Seq<T>, axes: Seq<usize>, x: T)
    requires
        ascending(axes),
        forall|k: int| 0 <= k < axes.len() ==> (axes[k] as int) < s.len(),
    ensures
        remove_axes(s.push(x), axes) == remove_axes(s, axes).push(x),
    decreases axes.len(),
{
    if axes.len() > 0 {
        let a = axes.last() as int;
        assert(s.push(x).remove(a) =~= s.remove(a).push(x));
        lemma_remove_axes_push(s.remove(a), axes.drop_last(), x);
    }
}

/// Removing the first (smallest) listed axis can be postponed to the end:
/// the later removals all happen at higher positions.
proof fn lemma_remove_axes_first<T>(s: Seq<T>, axes: Seq<usize>)
    requires
        axes.len() >= 1,
    ensures
        remove_axes(s, axes) == remove_axes(s, axes.subrange(1, axes.len() as int)).remove(
            axes[0] as int,
        ),
    decreases axes.len(),
{
    let n = axes.len() as int;
    if n == 1 {
        assert(axes.drop_last() =~= Seq::<usize>::empty());
        assert(axes.subrange(1, 1) =~= Seq::<usize>::empty());
        assert(remove_axes(s, axes) == remove_axes(s.remove(axes[0] as int), axes.drop_last()));
        assert(remove_axes(s, axes) == s.remove(axes[0] as int));
        assert(remove_axes(s, axes.subrange(1, 1)) == s);
    } else {
        let s1 = s.remove(axes.last() as int);
        let dl = axes.drop_last();
        lemma_remove_axes_first(s1, dl);
        assert(dl[0] == axes[0]);
        assert(remove_axes(s, axes) == remove_axes(s1, dl.subrange(1, n - 1)).remove(
            axes[0] as int,
        ));
        assert(axes.subrange(1, n).last() == axes.last());
        assert(axes.subrange(1, n).drop_last() =~= dl.subrange(1, n - 1));
        assert(remove_axes(s, axes.subrange(1, n)) == remove_axes(
            s.remove(axes.subrange(1, n).last() as int),
            axes.subrange(1, n).drop_last(),
        ));
        assert(remove_axes(s, axes.subrange(1, n)) == remove_axes(s1, dl.subrange(1, n - 1)));
    }
}

/// Removing strictly ascending axes that all lie above `a` keeps every
/// position at or below `a` and shortens the sequence by one per axis.
proof fn lemma_remove_axes_prefix<T>(s: Seq<T>, axes: Seq<usize>, a: int)
    requires
        ascending(axes),
        forall|k: int| 0 <= k < axes.len() ==> a < (#[trigger] axes[k]) < s.len(),
    ensures
        remove_axes(s, axes).len() == s.len() - axes.len(),
        forall|j: int| 0 <= j <= a ==> #[trigger] remove_axes(s, axes)[j] == s[j],
    decreases axes.len(),
{
    if axes.len() > 0 {
        let last = axes.last() as int;
        let s1 = s.remove(last);
        lemma_remove_axes_prefix(s1, axes.drop_last(), a);
        assert forall|j: int| 0 <= j <= a implies #[trigger] remove_axes(s, axes)[j] == s[j] by {
            assert(remove_axes(s1, axes.drop_last())[j] == s1[j]);
            assert(s1[j] == s[j]);
        }
    }
}

/// Indexing several ascending axes at once is the same as indexing them one
/// at a time: the fold of single-axis index steps removes exactly the listed
/// axes and accumulates exactly the offset that
/// [`ArrayLayout::index_many`] promises, whenever the fold's intermediate
/// offsets fit the machine's signed words.
pub proof fn lemma_index_many_is_repeated(v: LayoutView, args: Seq<IndexArg>)
    requires
        v.wf(),
        ascending(index_axes(args)),
        forall|k: int|
            0 <= k < args.len() ==> (#[trigger] args[k]).axis < v.rank() && args[k].index
                < v.shape[args[k].axis as int],
        forall|k: int|
            0 <= k <= args.len() ==> isize::MIN <= #[trigger] indexed_offset_from(v, args, k)
                <= isize::MAX,
    ensures
        index_fold(v, args).offset == indexed_offset_from(v, args, 0),
        indexed_offset_from(v, args, 0) == indexed_offset(v, args, args.len() as int),
        index_fold(v, args).shape == remove_axes(v.shape, index_axes(args)),
        index_fold(v, args).strides == remove_axes(v.strides, index_axes(args)),
    decreases args.len(),
{
    lemma_offset_reorder(v, args, 0);
    let n = args.len() as int;
    if n > 0 {
        let tail = args.subrange(1, n);
        assert forall|j: int, k: int|
            0 <= j < k < index_axes(tail).len() implies index_axes(tail)[j]
            < index_axes(tail)[k] by {
            assert(index_axes(tail)[j] == args[j + 1].axis);
            assert(index_axes(tail)[k] == args[k + 1].axis);
            assert(index_axes(args)[j + 1] == args[j + 1].axis);
            assert(index_axes(args)[k + 1] == args[k + 1].axis);
            assert(index_axes(args)[j + 1] < index_axes(args)[k + 1]);
        }
        assert forall|k: int|
            0 <= k <= tail.len() implies isize::MIN <= #[trigger] indexed_offset_from(v, tail, k)
                <= isize::MAX by {
            lemma_offset_from_shift(v, args, k);
        }
        lemma_index_many_is_repeated(v, tail);
        let w = index_fold(v, tail);
        let x = args[0].axis as int;
        let taxes = index_axes(tail);
        assert forall|k: int| 0 <= k < taxes.len() implies x < (#[trigger] taxes[k])
            < v.shape.len() by {
            assert(taxes[k] == args[k + 1].axis);
            assert(index_axes(args)[0] == args[0].axis);
            assert(index_axes(args)[k + 1] == args[k + 1].axis);
            assert(index_axes(args)[0] < index_axes(args)[k + 1]);
        }
        lemma_remove_axes_prefix(v.shape, taxes, x);
        lemma_remove_axes_prefix(v.strides, taxes, x);
        assert(w.shape[x] == v.shape[x]);
        assert(w.strides[x] == v.strides[x]);
        lemma_offset_from_shift(v, args, 0);
        assert(indexed_offset_from(v, args, 0) == indexed_offset_from(v, args, 1) + args[0].index
            * v.strides[x]);
        assert(isize::MIN <= indexed_offset_from(v, args, 0) <= isize::MAX);
        lemma_remove_axes_first(v.shape, index_axes(args));
        lemma_remove_axes_first(v.strides, index_axes(args));
        assert(index_axes(args).subrange(1, n) =~= taxes);
        assert(index_axes(args)[0] == args[0].axis);
    }
}

/// Dropping the first argument shifts the suffix offsets by one position.
proof fn lemma_offset_from_shift(v: LayoutView, args: Seq<IndexArg>, k: int)
    requires
        0 <= k,
        args.len() >= 1,
    ensures
        indexed_offset_from(v, args.subrange(1, args.len() as int), k) == indexed_offset_from(
            v,
            args,
            k + 1,
        ),
    decreases args.len() - k,
{
    let tail = args.subrange(1, args.len() as int);
    if k < tail.len() {
        lemma_offset_from_shift(v, args, k + 1);
        assert(tail[k] == args[k + 1]);
    }
}

impl<const N: usize> ArrayLayout<N> {
    /// Fixes one axis to one coordinate: the axis disappears from shape and
    /// strides, and the offset moves by `index * strides[axis]`.
    pub fn index(&self, axis: usize, index: usize) -> (r: Self)
        requires
            axis < self@.rank(),
            index < self@.shape[axis as int],
            self@.strides[axis as int] != 0 ==> index <= isize::MAX,
            isize::MIN <= index * self@.strides[axis as int] <= isize::MAX,
            isize::MIN <= self@.offset + index * self@.strides[axis as int] <= isize::MAX,
        ensures
            r@.offset == self@.offset + index * self@.strides[axis as int],
            r@.shape == self@.shape.remove(axis as int),
            r@.strides == self@.strides.remove(axis as int),
    {
        let mut args: Vec<IndexArg> = Vec::new();
        args.push(IndexArg { axis, index });
        proof {
            let aseq = index_axes(args@);
            assert(args@.len() == 1);
            assert(args@[0] == (IndexArg { axis, index }));
            assert(aseq =~= seq![axis]);
            assert(aseq.drop_last() =~= Seq::<usize>::empty());
            assert(indexed_offset(self@, args@, 0) == self@.offset);
            assert(indexed_offset(self@, args@, 1) == self@.offset + index
                * self@.strides[axis as int]);
            assert forall|k: int|
                0 <= k <= args@.len() implies isize::MIN <= #[trigger] indexed_offset(
                self@,
                args@,
                k,
            ) <= isize::MAX by {
                if k == 0 {
                    assert(indexed_offset(self@, args@, 0) == self@.offset);
                } else {
                    assert(indexed_offset(self@, args@, 1) == self@.offset + index
                        * self@.strides[axis as int]);
                }
            }
        }
        let r = self.index_many(args.as_slice());
        proof {
            assert(r@.shape == remove_axes(self@.shape, index_axes(args@)));
            assert(index_axes(args@).last() == axis);
            assert(remove_axes(self@.shape.remove(axis as int), index_axes(args@).drop_last())
                == self@.shape.remove(axis as int));
            assert(remove_axes(self@.strides.remove(axis as int), index_axes(args@).drop_last())
                == self@.strides.remove(axis as int));
        }
        r
    }

    /// Fixes several axes at once; the axes must be strictly ascending and
    /// each coordinate is checked against the *original* shape.
    #[verifier::loop_isolation(false)]
    pub fn index_many(&self, args: &[IndexArg]) -> (r: Self)
        requires
            ascending(index_axes(args@)),
            forall|k: int|
                0 <= k < args@.len() ==> (#[trigger] args@[k]).axis < self@.rank()
                    && args@[k].index < self@.shape[args@[k].axis as int],
            forall|k: int|
                0 <= k < args@.len() && self@.strides[(#[trigger] args@[k]).axis as int] != 0
                    ==> args@[k].index <= isize::MAX && isize::MIN <= args@[k].index
                    * self@.strides[args@[k].axis as int] <= isize::MAX,
            forall|k: int|
                0 <= k <= args@.len() ==> isize::MIN <= #[trigger] indexed_offset(self@, args@, k)
                    <= isize::MAX,
        ensures
            r@.offset == indexed_offset(self@, args@, args@.len() as int),
            r@.shape == remove_axes(self@.shape, index_axes(args@)),
            r@.strides == remove_axes(self@.strides, index_axes(args@)),
            (forall|k: int|
                0 <= k <= args@.len() ==> isize::MIN <= #[trigger] indexed_offset_from(
                    self@,
                    args@,
                    k,
                ) <= isize::MAX) ==> r@ == index_fold(self@, args@),
    {
        proof {
            use_type_invariant(self);
            self.inv_implies_wf();
        }
        let n = self.ndim();
        let shape = self.shape();
        let strides = self.strides();
        let mut offset = self.offset();
        let mut new_shape: Vec<usize> = Vec::new();
        let mut new_strides: Vec<isize> = Vec::new();
        let mut t: usize = 0;
        let mut i: usize = 0;
        while i < n
            invariant
                i <= n,
                t <= args@.len(),
                forall|j: int| 0 <= j < t ==> (#[trigger] args@[j]).axis < i,
                t < args@.len() ==> args@[t as int].axis >= i,
                offset == indexed_offset(self@, args@, t as int),
                new_shape@ == remove_axes(
                    self@.shape.take(i as int),
                    index_axes(args@.take(t as int)),
                ),
                new_strides@ == remove_axes(
                    self@.strides.take(i as int),
                    index_axes(args@.take(t as int)),
                ),
                new_shape@.len() == new_strides@.len(),
            decreases n - i,
        {
            let ghost pre_shape = self@.shape.take(i as int);
            let ghost pre_strides = self@.strides.take(i as int);
            let ghost pre_axes = index_axes(args@.take(t as int));
            proof {
                assert(self@.shape.take(i + 1) =~= pre_shape.push(self@.shape[i as int]));
                assert(self@.strides.take(i + 1) =~= pre_strides.push(self@.strides[i as int]));
            }
            if t < args.len() && args[t].axis == i {
                let idx = args[t].index;
                let s = strides[i];
                proof {
                    let axes1 = index_axes(args@.take(t + 1));
                    assert(axes1 =~= pre_axes.push(i));
                    assert(axes1.drop_last() =~= pre_axes);
                    assert(pre_shape.push(self@.shape[i as int]).remove(i as int) =~= pre_shape);
                    assert(pre_strides.push(self@.strides[i as int]).remove(i as int)
                        =~= pre_strides);
                    assert(isize::MIN <= indexed_offset(self@, args@, t + 1) <= isize::MAX);
                    if s == 0 {
                        let ii = idx as int;
                        let ss = self@.strides[i as int] as int;
                        assert(ii * ss == 0) by (nonlinear_arith)
                            requires
                                ss == 0,
                        ;
                    }
                }
                if s != 0 {
                    offset = offset + (idx as isize) * s;
                }
                t += 1;
                proof {
                    if t < args@.len() {
                        assert(index_axes(args@)[t - 1] == args@[t - 1].axis);
                        assert(index_axes(args@)[t as int] == args@[t as int].axis);
                        assert(index_axes(args@)[t - 1] < index_axes(args@)[t as int]);
                    }
                }
            } else {
                proof {
                    assert forall|a: int, b: int| 0 <= a < b < pre_axes.len() implies pre_axes[a]
                        < pre_axes[b] by {
                        assert(pre_axes[a] == args@[a].axis);
                        assert(pre_axes[b] == args@[b].axis);
                        assert(index_axes(args@)[a] == args@[a].axis);
                        assert(index_axes(args@)[b] == args@[b].axis);
                        assert(index_axes(args@)[a] < index_axes(args@)[b]);
                    }
                    assert(ascending(pre_axes));
                    assert forall|k: int| 0 <= k < pre_axes.len() implies (pre_axes[k] as int)
                        < i by {
                        assert(pre_axes[k] == args@[k].axis);
                    }
                    lemma_remove_axes_push(pre_shape, pre_axes, self@.shape[i as int]);
                    lemma_remove_axes_push(pre_strides, pre_axes, self@.strides[i as int]);
                }
                new_shape.push(shape[i]);
                new_strides.push(strides[i]);
            }
            i += 1;
        }
        proof {
            if t < args@.len() {
                assert(args@[t as int].axis < self@.rank());
            }
            assert(t == args@.len());
            assert(self@.shape.take(n as int) =~= self@.shape);
            assert(self@.strides.take(n as int) =~= self@.strides);
            assert(args@.take(t as int) =~= args@);
        }
        let r = Self::from_parts(offset, new_shape, new_strides);
        proof {
            if forall|k: int|
                0 <= k <= args@.len() ==> isize::MIN <= #[trigger] indexed_offset_from(
                    self@,
                    args@,
                    k,
                ) <= isize::MAX {
                lemma_index_many_is_repeated(self@, args@);
                assert(r@ =~= index_fold(self@, args@));
            }
        }
        r
    }
}

} // verus!
