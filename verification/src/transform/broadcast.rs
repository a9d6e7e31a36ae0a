//! Broadcast transform: expand an axis of extent one to a larger extent with
//! stride zero, so all expanded positions alias the same memory.

use vstd::prelude::*;

verus! {

use crate::ArrayLayout;

/// One axis–extent pair for [`ArrayLayout::broadcast_many`].
#[derive(Clone, Copy, PartialEq, Eq, Structural, Debug)]
pub struct BroadcastArg {
    /// The axis to broadcast.
    pub axis: usize,
    /// The extent the axis is expanded to.
    pub times: usize,
}

impl<const N: usize> ArrayLayout<N> {
    /// Expands one axis to extent `times` with stride zero. The axis must be
    /// broadcastable: extent one, or stride already zero.
    pub fn broadcast(&self, axis: usize, times: usize) -> (r: Self)
        requires
            axis < self@.rank(),
            self@.shape[axis as int] == 1 || self@.strides[axis as int] == 0,
        ensures
            r@.offset == self@.offset,
            r@.shape == self@.shape.update(axis as int, times),
            r@.strides == self@.strides.update(axis as int, 0isize),
    {
        let args = [BroadcastArg { axis, times }];
        let r = self.broadcast_many(args.as_slice());
        proof {
            assert(broadcast_shape(self@.shape, args@.drop_last()) == self@.shape);
            assert(broadcast_strides(self@.strides, args@.drop_last()) == self@.strides);
        }
        r
    }

    /// Broadcasts several axes in one call, in argument order.
    #[verifier::loop_isolation(false)]
    pub fn broadcast_many(&self, args: &[BroadcastArg]) -> (r: Self)
        requires
            forall|k: int|
                0 <= k < args@.len() ==> (#[trigger] args@[k]).axis < self@.rank() && (
                broadcast_shape(self@.shape, args@.take(k))[args@[k].axis as int] == 1
                    || broadcast_strides(self@.strides, args@.take(k))[args@[k].axis as int] == 0),
        ensures
            r@.offset == self@.offset,
            r@.shape == broadcast_shape(self@.shape, args@),
            r@.strides == broadcast_strides(self@.strides, args@),
    {
        let n = self.ndim();
        let mut new_shape = vstd::slice::slice_to_vec(self.shape());
        let mut new_strides = vstd::slice::slice_to_vec(self.strides());
        let offset = self.offset();
        let mut k: usize = 0;
        while k < args.len()
            invariant
                k <= args@.len(),
                new_shape@.len() == self@.shape.len(),
                new_strides@.len() == self@.strides.len(),
                new_shape@ == broadcast_shape(self@.shape, args@.take(k as int)),
                new_strides@ == broadcast_strides(self@.strides, args@.take(k as int)),
            decreases args@.len() - k,
        {
            proof {
                assert(args@.take(k + 1).drop_last() =~= args@.take(k as int));
                assert(args@.take(k + 1).last() == args@[k as int]);
            }
            let axis = args[k].axis;
            let times = args[k].times;
            new_shape[axis] = times;
            new_strides[axis] = 0;
            k += 1;
        }
        proof {
            assert(args@.take(args@.len() as int) =~= args@);
        }
        Self::from_parts(offset, new_shape, new_strides)
    }
}

/// The shape after the broadcast arguments have been applied in order: each
/// argument sets its axis's extent to `times`.
pub open spec fn broadcast_shape(shape: Seq<usize>, args: Seq<BroadcastArg>) -> Seq<usize>
    decreases args.len(),
{
    if args.len() == 0 {
        shape
    } else {
        broadcast_shape(shape, args.drop_last()).update(args.last().axis as int, args.last().times)
    }
}

/// The strides after the broadcast arguments have been applied in order:
/// each argument sets its axis's stride to zero.
pub open spec fn broadcast_strides(strides: Seq<isize>, args: Seq<BroadcastArg>) -> Seq<isize>
    decreases args.len(),
{
    if args.len() == 0 {
        strides
    } else {
        broadcast_strides(strides, args.drop_last()).update(args.last().axis as int, 0isize)
    }
}

} // verus!
