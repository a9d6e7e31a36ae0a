//! Slice transform: crop one axis to a sub-range with an optional step,
//! leaving the rank unchanged.

use vstd::prelude::*;

verus! {

use crate::{ArrayLayout, LayoutView};
use crate::transform::ascending;

/// One axis crop for [`ArrayLayout::slice_many`].
#[derive(Clone, Copy, PartialEq, Eq, Structural, Debug)]
pub struct SliceArg {
    /// The axis to crop.
    pub axis: usize,
    /// The first index kept (clamped to the last index when stepping
    /// backwards).
    pub start: usize,
    /// The step between kept indices; negative walks the axis backwards and
    /// zero keeps the axis's stride at zero.
    pub step: isize,
    /// The number of indices requested; the extent actually kept is capped by
    /// how many remain from `start`.
    pub len: usize,
}

/// Where the crop really starts: a backward step clamps `start` to the last
/// valid index of the axis.
pub open spec fn slice_start(d: int, arg: SliceArg) -> int {
    if arg.step < 0 && arg.start > d - 1 {
        d - 1
    } else {
        arg.start as int
    }
}

/// Ceiling division for positive divisors.
pub open spec fn div_ceil(a: int, b: int) -> int {
    if a % b == 0 {
        a / b
    } else {
        a / b + 1
    }
}

/// The extent kept on the cropped axis: the requested length, capped by how
/// many indices remain from the start at the given step.
pub open spec fn slice_extent(d: int, arg: SliceArg) -> int {
    if arg.step > 0 {
        let remaining = div_ceil(d - arg.start, arg.step as int);
        if remaining < arg.len { remaining } else { arg.len as int }
    } else if arg.step == 0 {
        arg.len as int
    } else {
        let remaining = div_ceil(slice_start(d, arg) + 1, -(arg.step as int));
        if remaining < arg.len { remaining } else { arg.len as int }
    }
}

/// The offset after the first `k` slice arguments: each argument moves the
/// offset by its effective start times its axis's stride.
pub open spec fn sliced_offset(v: LayoutView, args: Seq<SliceArg>, k: int) -> int
    decreases k,
{
    if k <= 0 {
        v.offset as int
    } else {
        sliced_offset(v, args, k - 1) + slice_start(v.shape[args[k - 1].axis as int] as int, args[k - 1])
            * v.strides[args[k - 1].axis as int]
    }
}

/// The axes a sequence of slice arguments targets, in argument order.
pub open spec fn slice_axes(args: Seq<SliceArg>) -> Seq<usize> {
    args.map_values(|a: SliceArg| a.axis)
}

/// The layout after one slice argument: the axis's extent and stride are
/// replaced and the offset moves to the first kept index.
pub open spec fn slice_one_view(v: LayoutView, arg: SliceArg) -> LayoutView {
    let d = v.shape[arg.axis as int] as int;
    LayoutView {
        offset: (v.offset + slice_start(d, arg) * v.strides[arg.axis as int]) as isize,
        shape: v.shape.update(arg.axis as int, slice_extent(d, arg) as usize),
        strides: v.strides.update(
            arg.axis as int,
            (v.strides[arg.axis as int] * arg.step) as isize,
        ),
    }
}

/// The slice arguments applied one at a time, in the order given: what
/// repeated single-axis slicing produces.
pub open spec fn slice_fold(v: LayoutView, args: Seq<SliceArg>) -> LayoutView
    decreases args.len(),
{
    if args.len() == 0 {
        v
    } else {
        slice_one_view(slice_fold(v, args.drop_last()), args.last())
    }
}

/// The accumulated offset reads only the arguments before `k`.
proof fn lemma_sliced_offset_prefix(v: LayoutView, args: Seq<SliceArg>, k: int)
    requires
        0 <= k < args.len(),
    ensures
        sliced_offset(v, args, k) == sliced_offset(v, args.drop_last(), k),
    decreases k,
{
    if k > 0 {
        lemma_sliced_offset_prefix(v, args, k - 1);
    }
}

/// Slicing several ascending axes at once is the same as slicing them one at
/// a time: the fold of single-axis slices has exactly the offset, extents
/// and strides that [`ArrayLayout::slice_many`] promises.
pub proof fn lemma_slice_many_is_repeated(v: LayoutView, args: Seq<SliceArg>)
    requires
        v.wf(),
        ascending(slice_axes(args)),
        forall|k: int| 0 <= k < args.len() ==> slice_arg_ok(v, #[trigger] args[k]),
        forall|k: int|
            0 <= k <= args.len() ==> isize::MIN <= #[trigger] sliced_offset(v, args, k)
                <= isize::MAX,
    ensures
        slice_fold(v, args).offset == sliced_offset(v, args, args.len() as int),
        slice_fold(v, args).shape.len() == v.shape.len(),
        slice_fold(v, args).strides.len() == v.strides.len(),
        forall|k: int|
            0 <= k < args.len() ==> slice_fold(v, args).shape[(#[trigger] args[k]).axis as int]
                == slice_extent(v.shape[args[k].axis as int] as int, args[k]),
        forall|k: int|
            0 <= k < args.len() ==> slice_fold(v, args).strides[(#[trigger] args[k]).axis as int]
                == v.strides[args[k].axis as int] * args[k].step,
        forall|a: int|
            0 <= a < v.rank() && !slice_axes(args).contains(a as usize) ==> slice_fold(
                v,
                args,
            ).shape[a] == v.shape[a] && slice_fold(v, args).strides[a] == v.strides[a],
    decreases args.len(),
{
    if args.len() > 0 {
        let dl = args.drop_last();
        let last = args.last();
        let n = args.len() as int;
        assert forall|j: int, k: int|
            0 <= j < k < slice_axes(dl).len() implies slice_axes(dl)[j] < slice_axes(dl)[k] by {
            assert(slice_axes(dl)[j] == dl[j].axis);
            assert(slice_axes(dl)[k] == dl[k].axis);
            assert(slice_axes(args)[j] == args[j].axis);
            assert(slice_axes(args)[k] == args[k].axis);
            assert(slice_axes(args)[j] < slice_axes(args)[k]);
        }
        assert forall|k: int|
            0 <= k <= dl.len() implies isize::MIN <= #[trigger] sliced_offset(v, dl, k)
                <= isize::MAX by {
            lemma_sliced_offset_prefix(v, args, k);
        }
        lemma_slice_many_is_repeated(v, dl);
        let w = slice_fold(v, dl);
        let x = last.axis as int;
        assert(!slice_axes(dl).contains(last.axis)) by {
            if slice_axes(dl).contains(last.axis) {
                let q = slice_axes(dl).index_of(last.axis);
                assert(slice_axes(dl)[q] == dl[q].axis);
                assert(slice_axes(args)[q] == args[q].axis);
                assert(slice_axes(args)[n - 1] == last.axis);
                assert(slice_axes(args)[q] < slice_axes(args)[n - 1]);
            }
        }
        assert(slice_arg_ok(v, last));
        assert(w.shape[x] == v.shape[x]);
        assert(w.strides[x] == v.strides[x]);
        assert(sliced_offset(v, args, n - 1) == sliced_offset(v, dl, n - 1)) by {
            lemma_sliced_offset_prefix(v, args, n - 1);
        }
        assert(isize::MIN <= sliced_offset(v, args, n) <= isize::MAX);
        assert(slice_fold(v, args) == slice_one_view(w, last));
        assert(slice_fold(v, args).offset == sliced_offset(v, args, n));
        assert forall|k: int|
            0 <= k < n implies slice_fold(v, args).shape[(#[trigger] args[k]).axis as int]
                == slice_extent(v.shape[args[k].axis as int] as int, args[k]) by {
            if k < n - 1 {
                assert(dl[k] == args[k]);
                assert(slice_axes(args)[k] == args[k].axis);
                assert(slice_axes(args)[n - 1] == last.axis);
                assert(slice_axes(args)[k] < slice_axes(args)[n - 1]);
                assert(slice_fold(v, args).shape[args[k].axis as int] == w.shape[args[k].axis as int]);
            }
        }
        assert forall|k: int|
            0 <= k < n implies slice_fold(v, args).strides[(#[trigger] args[k]).axis as int]
                == v.strides[args[k].axis as int] * args[k].step by {
            if k < n - 1 {
                assert(dl[k] == args[k]);
                assert(slice_axes(args)[k] == args[k].axis);
                assert(slice_axes(args)[n - 1] == last.axis);
                assert(slice_axes(args)[k] < slice_axes(args)[n - 1]);
                assert(slice_fold(v, args).strides[args[k].axis as int]
                    == w.strides[args[k].axis as int]);
            }
        }
        assert forall|a: int|
            0 <= a < v.rank() && !slice_axes(args).contains(a as usize) implies slice_fold(
            v,
            args,
        ).shape[a] == v.shape[a] && slice_fold(v, args).strides[a] == v.strides[a] by {
            assert(!slice_axes(dl).contains(a as usize)) by {
                if slice_axes(dl).contains(a as usize) {
                    let q = slice_axes(dl).index_of(a as usize);
                    assert(slice_axes(args)[q] == args[q].axis);
                    assert(slice_axes(args).contains(a as usize));
                }
            }
            assert(a != x) by {
                assert(slice_axes(args)[n - 1] == last.axis);
                if a == x {
                    assert(slice_axes(args).contains(a as usize));
                }
            }
        }
    }
}

/// Identity crop: slicing a whole axis from its start with step one yields a
/// layout equal to the original. (An axis of extent zero cannot be sliced at
/// all: no start index lies inside it.)
pub proof fn lemma_slice_identity(v: LayoutView, axis: usize)
    requires
        v.wf(),
        (axis as int) < v.rank(),
        v.shape[axis as int] >= 1,
    ensures
        slice_one_view(v, (SliceArg { axis, start: 0, step: 1isize, len: v.shape[axis as int] }))
            == v,
{
    let arg = SliceArg { axis, start: 0, step: 1isize, len: v.shape[axis as int] };
    let d = v.shape[axis as int] as int;
    let s = v.strides[axis as int] as int;
    assert(slice_start(d, arg) == 0);
    assert(0 * s == 0) by (nonlinear_arith);
    assert(d % 1 == 0 && d / 1 == d) by (nonlinear_arith)
        requires
            d >= 0,
    ;
    assert(div_ceil(d - 0, 1) == d);
    assert(slice_extent(d, arg) == d);
    assert(s * 1 == s) by (nonlinear_arith);
    assert(v.shape.update(axis as int, v.shape[axis as int]) =~= v.shape);
    assert(v.strides.update(axis as int, v.strides[axis as int]) =~= v.strides);
    assert(slice_one_view(v, arg) =~= v);
}

/// What one slice argument asks of the layout: a valid axis, a start inside
/// the axis (already clamped for backward steps), and products that fit the
/// machine's signed words.
pub open spec fn slice_arg_ok(v: LayoutView, arg: SliceArg) -> bool {
    let d = v.shape[arg.axis as int] as int;
    let s = v.strides[arg.axis as int] as int;
    &&& arg.axis < v.rank()
    &&& (arg.step >= 0 ==> arg.start < d)
    &&& (arg.step < 0 ==> d >= 1 && arg.step > isize::MIN)
    &&& slice_start(d, arg) <= isize::MAX
    &&& isize::MIN <= slice_start(d, arg) * s <= isize::MAX
    &&& isize::MIN <= s * arg.step <= isize::MAX
}

impl<const N: usize> ArrayLayout<N> {
    /// Crops one axis to `len` indices starting at `start`, every `step`-th
    /// index. The cropped axis's stride is scaled by the step; the offset
    /// moves to the first kept index.
    pub fn slice(&self, axis: usize, start: usize, step: isize, len: usize) -> (r: Self)
        requires
            slice_arg_ok(self@, (SliceArg { axis, start, step, len })),
            isize::MIN <= self@.offset + slice_start(self@.shape[axis as int] as int, (SliceArg { axis, start, step, len })) * self@.strides[axis as int] <= isize::MAX,
        ensures
            r@.offset == self@.offset + slice_start(self@.shape[axis as int] as int, (SliceArg { axis, start, step, len })) * self@.strides[axis as int],
            r@.shape == self@.shape.update(axis as int, slice_extent(self@.shape[axis as int] as int, (SliceArg { axis, start, step, len })) as usize),
            r@.strides == self@.strides.update(axis as int, (self@.strides[axis as int] * step) as isize),
            r@ == slice_one_view(self@, (SliceArg { axis, start, step, len })),
    {
        let mut args: Vec<SliceArg> = Vec::new();
        args.push(SliceArg { axis, start, step, len });
        proof {
            let arg = SliceArg { axis, start, step, len };
            assert(args@.len() == 1);
            assert(args@[0] == arg);
            assert(slice_axes(args@) =~= seq![axis]);
            assert(sliced_offset(self@, args@, 0) == self@.offset);
            assert(sliced_offset(self@, args@, 1) == self@.offset + slice_start(
                self@.shape[axis as int] as int,
                arg,
            ) * self@.strides[axis as int]);
            assert forall|k: int|
                0 <= k <= args@.len() implies isize::MIN <= #[trigger] sliced_offset(
                self@,
                args@,
                k,
            ) <= isize::MAX by {
                if k == 0 {
                    assert(sliced_offset(self@, args@, 0) == self@.offset);
                } else {
                    assert(sliced_offset(self@, args@, 1) == self@.offset + slice_start(
                        self@.shape[axis as int] as int,
                        (SliceArg { axis, start, step, len }),
                    ) * self@.strides[axis as int]);
                }
            }
        }
        let r = self.slice_many(args.as_slice());
        proof {
            use_type_invariant(self);
            self.inv_implies_wf();
            let arg = SliceArg { axis, start, step, len };
            assert(slice_axes(args@).len() == 1);
            assert(slice_axes(args@)[0] == axis);
            assert(r@.shape[axis as int] == slice_extent(self@.shape[axis as int] as int, arg));
            assert(r@.strides[axis as int] == self@.strides[axis as int] * step);
            assert forall|a: int|
                0 <= a < self@.rank() && a != axis implies r@.shape[a] == self@.shape[a]
                && r@.strides[a] == self@.strides[a] by {
                if slice_axes(args@).contains(a as usize) {
                    let w = slice_axes(args@).index_of(a as usize);
                    assert(0 <= w < 1);
                    assert(slice_axes(args@)[w] == a as usize);
                    assert(false);
                }
            }
            assert(0 <= slice_extent(self@.shape[axis as int] as int, arg) <= usize::MAX);
            assert(r@.shape =~= self@.shape.update(
                axis as int,
                slice_extent(self@.shape[axis as int] as int, arg) as usize,
            ));
            assert(r@.strides =~= self@.strides.update(
                axis as int,
                (self@.strides[axis as int] * step) as isize,
            ));
            assert(r@ =~= slice_one_view(self@, arg));
        }
        r
    }

    /// Crops several axes at once; the axes must be strictly ascending, and
    /// every argument is checked against the *original* shape.
    #[verifier::loop_isolation(false)]
    pub fn slice_many(&self, args: &[SliceArg]) -> (r: Self)
        requires
            ascending(slice_axes(args@)),
            forall|k: int| 0 <= k < args@.len() ==> slice_arg_ok(self@, #[trigger] args@[k]),
            forall|k: int|
                0 <= k <= args@.len() ==> isize::MIN <= #[trigger] sliced_offset(self@, args@, k)
                    <= isize::MAX,
        ensures
            r@.offset == sliced_offset(self@, args@, args@.len() as int),
            r@.shape.len() == self@.shape.len(),
            r@.strides.len() == self@.strides.len(),
            forall|k: int|
                0 <= k < args@.len() ==> r@.shape[(#[trigger] args@[k]).axis as int]
                    == slice_extent(self@.shape[args@[k].axis as int] as int, args@[k]),
            forall|k: int|
                0 <= k < args@.len() ==> r@.strides[(#[trigger] args@[k]).axis as int]
                    == self@.strides[args@[k].axis as int] * args@[k].step,
            forall|a: int|
                0 <= a < self@.rank() && !slice_axes(args@).contains(a as usize) ==> r@.shape[a]
                    == self@.shape[a] && r@.strides[a] == self@.strides[a],
            r@ == slice_fold(self@, args@),
    {
        proof {
            use_type_invariant(self);
            self.inv_implies_wf();
        }
        let n = self.ndim();
        let shape = self.shape();
        let strides = self.strides();
        let mut offset = self.offset();
        let mut new_shape: Vec<usize> = Vec::new();
        let mut new_strides: Vec<isize> = Vec::new();
        let mut t: usize = 0;
        let mut i: usize = 0;
        while i < n
            invariant
                i <= n,
                t <= args@.len(),
                forall|j: int| 0 <= j < t ==> (#[trigger] args@[j]).axis < i,
                t < args@.len() ==> args@[t as int].axis >= i,
                offset == sliced_offset(self@, args@, t as int),
                new_shape@.len() == i,
                new_strides@.len() == i,
                forall|j: int|
                    0 <= j < t ==> new_shape@[(#[trigger] args@[j]).axis as int] == slice_extent(
                        self@.shape[args@[j].axis as int] as int,
                        args@[j],
                    ),
                forall|j: int|
                    0 <= j < t ==> new_strides@[(#[trigger] args@[j]).axis as int]
                        == self@.strides[args@[j].axis as int] * args@[j].step,
                forall|a: int|
                    0 <= a < i && !slice_axes(args@.take(t as int)).contains(a as usize)
                        ==> new_shape@[a] == self@.shape[a] && new_strides@[a]
                        == self@.strides[a],
            decreases n - i,
        {
            if t < args.len() && args[t].axis == i {
                let arg = args[t];
                let d = shape[i];
                let s = strides[i];
                let ghost dd = d as int;
                let ghost argg = args@[t as int];
                proof {
                    assert(slice_arg_ok(self@, argg));
                    assert(isize::MIN <= sliced_offset(self@, args@, t + 1) <= isize::MAX);
                }
                let eff_start: usize = if arg.step < 0 && arg.start > d - 1 {
                    d - 1
                } else {
                    arg.start
                };
                proof {
                    assert(eff_start == slice_start(dd, argg));
                }
                if s != 0 {
                    offset = offset + (eff_start as isize) * s;
                } else {
                    proof {
                        let e = eff_start as int;
                        let ss = self@.strides[i as int] as int;
                        assert(e * ss == 0) by (nonlinear_arith)
                            requires
                                ss == 0,
                        ;
                    }
                }
                let extent: usize = if arg.step > 0 {
                    let remaining = div_ceil_usize(d - arg.start, arg.step as usize);
                    if remaining < arg.len {
                        remaining
                    } else {
                        arg.len
                    }
                } else if arg.step == 0 {
                    arg.len
                } else {
                    let remaining = div_ceil_usize(eff_start + 1, (-arg.step) as usize);
                    if remaining < arg.len {
                        remaining
                    } else {
                        arg.len
                    }
                };
                proof {
                    assert(extent == slice_extent(dd, argg));
                }
                new_shape.push(extent);
                new_strides.push(s * arg.step);
                t += 1;
                proof {
                    assert(slice_axes(args@.take(t as int)) =~= slice_axes(
                        args@.take(t - 1),
                    ).push(argg.axis));
                    if t < args@.len() {
                        assert(slice_axes(args@)[t - 1] == args@[t - 1].axis);
                        assert(slice_axes(args@)[t as int] == args@[t as int].axis);
                        assert(slice_axes(args@)[t - 1] < slice_axes(args@)[t as int]);
                    }
                    assert(slice_axes(args@.take(t as int))[t - 1] == argg.axis);
                    assert(slice_axes(args@.take(t as int)).contains(argg.axis));
                    assert forall|a: usize| #[trigger] slice_axes(args@.take(t - 1)).contains(a)
                        implies slice_axes(args@.take(t as int)).contains(a) by {
                        let w = slice_axes(args@.take(t - 1)).index_of(a);
                        assert(slice_axes(args@.take(t as int))[w] == a);
                    }
                }
            } else {
                proof {
                    if slice_axes(args@.take(t as int)).contains(i) {
                        let w = slice_axes(args@.take(t as int)).index_of(i);
                        assert(slice_axes(args@.take(t as int))[w] == args@[w].axis);
                        assert(false);
                    }
                }
                new_shape.push(shape[i]);
                new_strides.push(strides[i]);
            }
            i += 1;
        }
        proof {
            if t < args@.len() {
                assert(slice_arg_ok(self@, args@[t as int]));
            }
            assert(t == args@.len());
            assert(args@.take(t as int) =~= args@);
        }
        let r = Self::from_parts(offset, new_shape, new_strides);
        proof {
            lemma_slice_many_is_repeated(self@, args@);
            let fv = slice_fold(self@, args@);
            assert forall|a: int| 0 <= a < self@.rank() implies #[trigger] r@.shape[a]
                == fv.shape[a] && r@.strides[a] == fv.strides[a] by {
                if slice_axes(args@).contains(a as usize) {
                    let q = slice_axes(args@).index_of(a as usize);
                    assert(slice_axes(args@)[q] == args@[q].axis);
                }
            }
            assert(r@.shape =~= fv.shape);
            assert(r@.strides =~= fv.strides);
            assert(r@ =~= fv);
        }
        r
    }
}

/// Ceiling division on machine words, for a positive divisor.
fn div_ceil_usize(a: usize, b: usize) -> (r: usize)
    requires
        b > 0,
    ensures
        r == div_ceil(a as int, b as int),
{
    let q = a / b;
    if a % b == 0 {
        q
    } else {
        proof {
            let aa = a as int;
            let bb = b as int;
            if aa == 0 {
                assert(aa % bb == 0) by (nonlinear_arith)
                    requires
                        aa == 0,
                        bb >= 1,
                ;
            }
            if bb == 1 {
                assert(aa % bb == 0) by (nonlinear_arith)
                    requires
                        aa >= 0,
                        bb == 1,
                ;
            }
            assert(aa / bb < aa) by (nonlinear_arith)
                requires
                    aa >= 1,
                    bb >= 2,
            ;
        }
        q + 1
    }
}

} // verus!
