//! Split transform: partition one axis into consecutive sub-layouts of
//! given, possibly unequal, sizes; a lazy, finite, single-pass sequence.

use vstd::prelude::*;

verus! {

use crate::{ArrayLayout, LayoutView};

/// Sum of the first `k` partition sizes.
pub open spec fn parts_sum(parts: Seq<usize>, k: int) -> int
    decreases k,
{
    if k <= 0 {
        0
    } else {
        parts_sum(parts, k - 1) + parts[k - 1]
    }
}

/// What a split asks of the layout: a valid axis, partition sizes that sum
/// exactly to the axis's extent, no partition starting at or past the axis's
/// end, and start offsets that fit the machine's signed words.
pub open spec fn split_ok(v: LayoutView, axis: int, parts: Seq<usize>) -> bool {
    &&& 0 <= axis < v.rank()
    &&& parts_sum(parts, parts.len() as int) == v.shape[axis]
    &&& forall|k: int|
        0 <= k < parts.len() ==> #[trigger] parts_sum(parts, k) < v.shape[axis]
            && parts_sum(parts, k) <= isize::MAX
    &&& forall|k: int|
        0 <= k < parts.len() ==> isize::MIN <= #[trigger] (parts_sum(parts, k) * v.strides[axis])
            <= isize::MAX && isize::MIN <= v.offset + parts_sum(parts, k) * v.strides[axis]
            <= isize::MAX
}

/// The `k`-th sub-layout of a split: the axis cropped to the `k`-th
/// partition, starting where the previous partitions end.
pub open spec fn split_piece(v: LayoutView, axis: int, parts: Seq<usize>, k: int) -> LayoutView {
    LayoutView {
        offset: (v.offset + parts_sum(parts, k) * v.strides[axis]) as isize,
        shape: v.shape.update(axis, parts[k]),
        strides: v.strides,
    }
}

/// A single-pass sequence of the sub-layouts a split produces, one per
/// partition size, in order of increasing start offset.
pub struct Split<'a, const N: usize> {
    src: &'a ArrayLayout<N>,
    axis: usize,
    start: usize,
    parts: &'a [usize],
    consumed: usize,
}

impl<'a, const N: usize> Split<'a, N> {
    #[verifier::type_invariant]
    spec fn wf(&self) -> bool {
        &&& split_ok(self.src@, self.axis as int, self.parts@)
        &&& self.consumed <= self.parts@.len()
        &&& self.start == parts_sum(self.parts@, self.consumed as int)
    }

    /// The layout being split.
    pub closed spec fn src_view(&self) -> LayoutView {
        self.src@
    }

    /// The axis being split.
    pub closed spec fn axis_spec(&self) -> usize {
        self.axis
    }

    /// The partition sizes.
    pub closed spec fn parts_spec(&self) -> Seq<usize> {
        self.parts@
    }

    /// How many sub-layouts have been handed out.
    pub closed spec fn consumed_spec(&self) -> int {
        self.consumed as int
    }

    /// Hands out the next sub-layout, or `None` once every partition has
    /// been produced.
    pub fn next(&mut self) -> (r: Option<ArrayLayout<N>>)
        ensures
            final(self).src_view() == old(self).src_view(),
            final(self).axis_spec() == old(self).axis_spec(),
            final(self).parts_spec() == old(self).parts_spec(),
            old(self).consumed_spec() == old(self).parts_spec().len() as int ==> r is None
                && final(self).consumed_spec() == old(self).consumed_spec(),
            old(self).consumed_spec() < old(self).parts_spec().len() as int ==> r is Some
                && final(self).consumed_spec() == old(self).consumed_spec() + 1
                && r.unwrap()@ == split_piece(
                old(self).src_view(),
                old(self).axis_spec() as int,
                old(self).parts_spec(),
                old(self).consumed_spec(),
            ),
    {
        proof {
            use_type_invariant(&*self);
        }
        if self.consumed >= self.parts.len() {
            return None;
        }
        let v = self.src;
        let axis = self.axis;
        let start = self.start;
        let head = self.parts[self.consumed];
        let ghost vv = self.src@;
        let ghost ps = self.parts@;
        let ghost c = self.consumed as int;
        proof {
            use_type_invariant(v);
            v.inv_implies_wf();
            assert(parts_sum(ps, c + 1) == parts_sum(ps, c) + ps[c]);
            lemma_parts_sum_mono(ps, c + 1, ps.len() as int);
            assert(parts_sum(ps, c) < vv.shape[axis as int]);
            assert(parts_sum(ps, c) * vv.strides[axis as int] == parts_sum(ps, c)
                * vv.strides[axis as int]);
            let s = vv.strides[axis as int] as int;
            assert(s * 1 == s) by (nonlinear_arith);
            assert(crate::transform::slice::slice_start(
                vv.shape[axis as int] as int,
                (crate::SliceArg { axis, start, step: 1isize, len: head }),
            ) == start);
        }
        let piece = v.slice(axis, start, 1, head);
        proof {
            let arg = crate::SliceArg { axis, start, step: 1isize, len: head };
            let d = vv.shape[axis as int] as int;
            let rem = crate::transform::slice::div_ceil(d - start, 1);
            assert((d - start) % 1 == 0 && (d - start) / 1 == d - start) by (nonlinear_arith)
                requires
                    d - start >= 0,
            ;
            assert(head <= rem);
            assert(crate::transform::slice::slice_extent(d, arg) == head);
            assert(piece@.shape =~= vv.shape.update(axis as int, head));
            let sv = vv.strides[axis as int];
            assert(sv * 1isize == sv as int) by (nonlinear_arith);
            assert((sv * 1isize) as isize == sv);
            assert(piece@.strides == vv.strides.update(axis as int, sv));
            assert(piece@.strides =~= vv.strides);
            assert(piece@ =~= split_piece(vv, axis as int, ps, c));
        }
        *self = Split {
            src: self.src,
            axis: self.axis,
            start: self.start + head,
            parts: self.parts,
            consumed: self.consumed + 1,
        };
        Some(piece)
    }
}

/// Partial sums of partition sizes never decrease.
proof fn lemma_parts_sum_mono(parts: Seq<usize>, a: int, b: int)
    requires
        a <= b,
    ensures
        parts_sum(parts, a) <= parts_sum(parts, b),
    decreases b - a,
{
    if a < b {
        lemma_parts_sum_mono(parts, a, b - 1);
    }
}

impl<const N: usize> ArrayLayout<N> {
    /// Partitions one axis into consecutive pieces of the given sizes. Sizes
    /// that do not sum exactly to the axis's extent are a structural
    /// infeasibility, reported as `None` rather than as a wrong partition.
    /// On success the pieces come out in order of increasing start offset,
    /// one per call to [`Split::next`].
    #[verifier::loop_isolation(false)]
    pub fn split<'a>(&'a self, axis: usize, parts: &'a [usize]) -> (r: Option<Split<'a, N>>)
        requires
            (axis as int) < self@.rank(),
            parts_sum(parts@, parts@.len() as int) == self@.shape[axis as int] ==> split_ok(
                self@,
                axis as int,
                parts@,
            ),
        ensures
            r is Some <==> parts_sum(parts@, parts@.len() as int) == self@.shape[axis as int],
            r is Some ==> {
                &&& r.unwrap().src_view() == self@
                &&& r.unwrap().axis_spec() == axis
                &&& r.unwrap().parts_spec() == parts@
                &&& r.unwrap().consumed_spec() == 0
            },
    {
        proof {
            use_type_invariant(self);
            self.inv_implies_wf();
        }
        let shape = self.shape();
        let d = shape[axis];
        let mut total: usize = 0;
        let mut i: usize = 0;
        while i < parts.len()
            invariant
                i <= parts@.len(),
                total == parts_sum(parts@, i as int),
            decreases parts@.len() - i,
        {
            proof {
                assert(parts_sum(parts@, i + 1) == parts_sum(parts@, i as int)
                    + parts@[i as int]);
            }
            match total.checked_add(parts[i]) {
                Some(t) => {
                    total = t;
                },
                None => {
                    proof {
                        lemma_parts_sum_mono(parts@, i + 1, parts@.len() as int);
                    }
                    return None;
                },
            }
            i += 1;
        }
        if total != d {
            return None;
        }
        Some(Split { src: self, axis, start: 0, parts, consumed: 0 })
    }
}

} // verus!
