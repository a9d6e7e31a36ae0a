//! Layout descriptors for N-dimensional array views.
//!
//! An [`ArrayLayout`] records how logical indices of a tensor map to linear
//! memory positions: a base `offset`, a `shape` (extent per axis) and a
//! `strides` vector (linear step per unit index along each axis). It owns no
//! data buffer; every transform returns a fresh layout and leaves its input
//! untouched. Layouts of rank at most `N` are stored inline, higher ranks in
//! one owned heap block; the representation is invisible to callers and plays
//! no part in equality.

use vstd::prelude::*;

pub mod transform;

pub use transform::{BroadcastArg, IndexArg, SliceArg, Split, TileArg, TileOrder};

verus! {

use std::ops::RangeInclusive;

/// Order in which a contiguous layout packs its axes.
#[derive(Clone, Copy, PartialEq, Eq, Structural, Hash, Debug)]
pub enum Endian {
    /// Axes earlier in the shape take the larger strides.
    BigEndian,
    /// Axes earlier in the shape take the smaller strides.
    LittleEndian,
}

/// The logical content of a layout: what a layout *is*, independent of how it
/// is stored. Two layouts are equal exactly when their `LayoutView`s are.
#[verifier::ext_equal]
pub struct LayoutView {
    /// Linear position of the all-zero logical index.
    pub offset: isize,
    /// Extent along each axis.
    pub shape: Seq<usize>,
    /// Linear step per unit index increment along each axis.
    pub strides: Seq<isize>,
}

impl LayoutView {
    /// Shape and strides always cover the same axes.
    pub open spec fn wf(self) -> bool {
        self.shape.len() == self.strides.len()
    }

    /// Number of axes.
    pub open spec fn rank(self) -> int {
        self.shape.len() as int
    }
}

/// Worst-case negative displacement reachable through the first `k` axes:
/// every axis with a negative stride contributes `(extent - 1) * stride`.
pub open spec fn neg_displacement(shape: Seq<usize>, strides: Seq<isize>, k: int) -> int
    decreases k,
{
    if k <= 0 {
        0
    } else {
        neg_displacement(shape, strides, k - 1) + if strides[k - 1] < 0 {
            (shape[k - 1] - 1) * strides[k - 1]
        } else {
            0
        }
    }
}

/// A layout constructed from scratch must keep every partial accumulation of
/// worst-case negative displacement at or above linear position zero.
pub open spec fn offset_invariant(shape: Seq<usize>, strides: Seq<isize>, offset: isize) -> bool {
    forall|k: int| 0 <= k <= shape.len() ==> offset + neg_displacement(shape, strides, k) >= 0
}

/// Product of the extents `shape[from..to]`.
pub open spec fn extent_prod(shape: Seq<usize>, from: int, to: int) -> int
    decreases to - from,
{
    if from >= to {
        1
    } else {
        shape[from] * extent_prod(shape, from + 1, to)
    }
}

/// Stride of axis `i` in a fully packed layout over `shape`: the element size
/// times the extents of every axis packed more tightly than `i`.
pub open spec fn contiguous_stride(
    shape: Seq<usize>,
    endian: Endian,
    element_size: usize,
    i: int,
) -> int {
    match endian {
        Endian::BigEndian => element_size * extent_prod(shape, i + 1, shape.len() as int),
        Endian::LittleEndian => element_size * extent_prod(shape, 0, i),
    }
}

/// Worst-case displacement below the offset over the first `k` axes, as
/// [`neg_displacement`], but rooted at a layout view's own offset.
pub open spec fn lowest_position(v: LayoutView, k: int) -> int {
    v.offset + neg_displacement(v.shape, v.strides, k)
}

/// Worst-case displacement above the offset over the first `k` axes: every
/// axis with a positive stride contributes `(extent - 1) * stride`.
pub open spec fn pos_displacement(shape: Seq<usize>, strides: Seq<isize>, k: int) -> int
    decreases k,
{
    if k <= 0 {
        0
    } else {
        pos_displacement(shape, strides, k - 1) + if strides[k - 1] > 0 {
            (shape[k - 1] - 1) * strides[k - 1]
        } else {
            0
        }
    }
}

/// As [`lowest_position`], for the upper end of the addressable range.
pub open spec fn highest_position(v: LayoutView, k: int) -> int {
    v.offset + pos_displacement(v.shape, v.strides, k)
}

/// Extending a product of extents by one axis on the right multiplies it by
/// that axis's extent.
proof fn lemma_extent_prod_snoc(shape: Seq<usize>, from: int, to: int)
    requires
        0 <= from <= to < shape.len(),
    ensures
        extent_prod(shape, from, to + 1) == extent_prod(shape, from, to) * shape[to],
    decreases to - from,
{
    if from == to {
        assert(extent_prod(shape, to + 1, to + 1) == 1);
        assert(extent_prod(shape, from, to) == 1);
    } else {
        lemma_extent_prod_snoc(shape, from + 1, to);
        let a = shape[from] as int;
        let p = extent_prod(shape, from + 1, to);
        let d = shape[to] as int;
        assert(extent_prod(shape, from, to + 1) == a * extent_prod(shape, from + 1, to + 1));
        assert(extent_prod(shape, from + 1, to + 1) == p * d);
        assert(extent_prod(shape, from, to) == a * p);
        assert(a * (p * d) == (a * p) * d) by (nonlinear_arith);
    }
}

proof fn lemma_extent_prod_nonneg(shape: Seq<usize>, from: int, to: int)
    ensures
        extent_prod(shape, from, to) >= 0,
    decreases to - from,
{
    if from < to {
        lemma_extent_prod_nonneg(shape, from + 1, to);
        let a = shape[from] as int;
        let p = extent_prod(shape, from + 1, to);
        assert(a * p >= 0) by (nonlinear_arith)
            requires
                a >= 0,
                p >= 0,
        ;
    }
}

proof fn lemma_contiguous_stride_nonneg(shape: Seq<usize>, endian: Endian, element_size: usize, i: int)
    ensures
        contiguous_stride(shape, endian, element_size, i) >= 0,
{
    let es = element_size as int;
    match endian {
        Endian::BigEndian => {
            lemma_extent_prod_nonneg(shape, i + 1, shape.len() as int);
            let p = extent_prod(shape, i + 1, shape.len() as int);
            assert(es * p >= 0) by (nonlinear_arith)
                requires
                    es >= 0,
                    p >= 0,
            ;
        },
        Endian::LittleEndian => {
            lemma_extent_prod_nonneg(shape, 0, i);
            let p = extent_prod(shape, 0, i);
            assert(es * p >= 0) by (nonlinear_arith)
                requires
                    es >= 0,
                    p >= 0,
            ;
        },
    }
}

/// In a big-endian packing, the stride of an axis is the stride of its right
/// neighbour times that neighbour's extent.
proof fn lemma_contiguous_step_be(shape: Seq<usize>, element_size: usize, i: int)
    requires
        1 <= i < shape.len(),
    ensures
        contiguous_stride(shape, Endian::BigEndian, element_size, i - 1) == contiguous_stride(
            shape,
            Endian::BigEndian,
            element_size,
            i,
        ) * shape[i],
{
    let es = element_size as int;
    let n = shape.len() as int;
    let d = shape[i] as int;
    let p = extent_prod(shape, i + 1, n);
    assert(extent_prod(shape, i, n) == d * p);
    assert(es * (d * p) == (es * p) * d) by (nonlinear_arith);
}

/// In a little-endian packing, the stride of an axis is the stride of its
/// left neighbour times that neighbour's extent.
proof fn lemma_contiguous_step_le(shape: Seq<usize>, element_size: usize, i: int)
    requires
        0 <= i < shape.len(),
    ensures
        contiguous_stride(shape, Endian::LittleEndian, element_size, i + 1) == contiguous_stride(
            shape,
            Endian::LittleEndian,
            element_size,
            i,
        ) * shape[i],
{
    let es = element_size as int;
    let d = shape[i] as int;
    let p = extent_prod(shape, 0, i);
    lemma_extent_prod_snoc(shape, 0, i);
    assert(es * (p * d) == (es * p) * d) by (nonlinear_arith);
}

/// Backing storage for one layout: the three fields live inline for rank at
/// most `N`, and in owned heap vectors above that.
enum Storage<const N: usize> {
    Inline { offset: isize, shape: [usize; N], strides: [isize; N] },
    Heap { offset: isize, shape: Vec<usize>, strides: Vec<isize> },
}

/// An array layout allowing `N` dimensions inlined.
pub struct ArrayLayout<const N: usize> {
    ndim: usize,
    content: Storage<N>,
}

impl<const N: usize> ArrayLayout<N> {
    #[verifier::type_invariant]
    spec fn inv(self) -> bool {
        match self.content {
            Storage::Inline { .. } => self.ndim <= N,
            Storage::Heap { offset, shape, strides } => {
                &&& self.ndim > N
                &&& shape@.len() == self.ndim
                &&& strides@.len() == self.ndim
            },
        }
    }
}

impl<const N: usize> View for ArrayLayout<N> {
    type V = LayoutView;

    closed spec fn view(&self) -> LayoutView {
        match self.content {
            Storage::Inline { offset, shape, strides } => (LayoutView {
                offset,
                shape: shape@.take(self.ndim as int),
                strides: strides@.take(self.ndim as int),
            }),
            Storage::Heap { offset, shape, strides } => (LayoutView {
                offset,
                shape: shape@,
                strides: strides@,
            }),
        }
    }
}

impl<const N: usize> ArrayLayout<N> {
    /// Builds a layout from already-validated parts, choosing inline or heap
    /// storage by rank. Every constructor and transform funnels through here.
    fn from_parts(offset: isize, shape: Vec<usize>, strides: Vec<isize>) -> (r: Self)
        requires
            shape@.len() == strides@.len(),
        ensures
            r@ == (LayoutView { offset, shape: shape@, strides: strides@ }),
    {
        let ndim = shape.len();
        if ndim <= N {
            let mut a_shape: [usize; N] = [0; N];
            let mut a_strides: [isize; N] = [0; N];
            let mut i: usize = 0;
            while i < ndim
                invariant
                    i <= ndim,
                    ndim <= N,
                    ndim == shape@.len() == strides@.len(),
                    a_shape@.len() == N,
                    a_strides@.len() == N,
                    forall|j: int| 0 <= j < i ==> a_shape@[j] == shape@[j],
                    forall|j: int| 0 <= j < i ==> a_strides@[j] == strides@[j],
                decreases ndim - i,
            {
                a_shape[i] = shape[i];
                a_strides[i] = strides[i];
                i += 1;
            }
            let r = ArrayLayout {
                ndim,
                content: Storage::Inline { offset, shape: a_shape, strides: a_strides },
            };
            proof {
                assert(a_shape@.take(ndim as int) =~= shape@);
                assert(a_strides@.take(ndim as int) =~= strides@);
                assert(r@ =~= (LayoutView { offset, shape: shape@, strides: strides@ }));
            }
            r
        } else {
            ArrayLayout { ndim, content: Storage::Heap { offset, shape, strides } }
        }
    }

    /// Creates a new layout with the given shape, strides and offset.
    ///
    /// The offset must be large enough that no in-range logical index
    /// resolves to a linear position below zero ([`offset_invariant`]).
    pub fn new(shape: &[usize], strides: &[isize], offset: isize) -> (r: Self)
        requires
            shape@.len() == strides@.len(),
            offset_invariant(shape@, strides@, offset),
        ensures
            r@ == (LayoutView { offset, shape: shape@, strides: strides@ }),
    {
        let shape_v = vstd::slice::slice_to_vec(shape);
        let strides_v = vstd::slice::slice_to_vec(strides);
        Self::from_parts(offset, shape_v, strides_v)
    }

    /// Creates a new contiguous layout with the given shape: offset zero, and
    /// strides packed from `element_size` outward in the order the endianness
    /// selects.
    #[verifier::loop_isolation(false)]
    pub fn new_contiguous(shape: &[usize], endian: Endian, element_size: usize) -> (r: Self)
        requires
            forall|i: int|
                0 <= i < shape@.len() ==> contiguous_stride(shape@, endian, element_size, i)
                    <= isize::MAX,
        ensures
            r@.offset == 0,
            r@.shape == shape@,
            r@.strides.len() == shape@.len(),
            forall|i: int|
                0 <= i < shape@.len() ==> r@.strides[i] == contiguous_stride(
                    shape@,
                    endian,
                    element_size,
                    i,
                ),
    {
        let ghost s = shape@;
        let n = shape.len();
        if n == 0 {
            return Self::from_parts(0, vstd::slice::slice_to_vec(shape), Vec::new());
        }
        // `element_size` itself is the stride of the most tightly packed axis,
        // so the precondition bounds it.
        proof {
            let es = element_size as int;
            match endian {
                Endian::BigEndian => {
                    let p = extent_prod(s, n as int, n as int);
                    assert(p == 1);
                    assert(es * p == es) by (nonlinear_arith)
                        requires
                            p == 1,
                    ;
                    assert(contiguous_stride(s, endian, element_size, n - 1) == element_size);
                },
                Endian::LittleEndian => {
                    let p = extent_prod(s, 0, 0);
                    assert(p == 1);
                    assert(es * p == es) by (nonlinear_arith)
                        requires
                            p == 1,
                    ;
                    assert(contiguous_stride(s, endian, element_size, 0) == element_size);
                },
            }
        }
        let mut mul: isize = element_size as isize;
        let mut strides_v: Vec<isize> = Vec::new();
        match endian {
            Endian::BigEndian => {
                let mut i: usize = n;
                strides_v = vec![0isize; n];
                while i > 0
                    invariant
                        i <= n,
                        strides_v@.len() == n,
                        forall|j: int|
                            i <= j < n ==> strides_v@[j] == contiguous_stride(
                                s,
                                endian,
                                element_size,
                                j,
                            ),
                        i > 0 ==> mul == contiguous_stride(s, endian, element_size, i - 1),
                        mul >= 0,
                    decreases i,
                {
                    i -= 1;
                    strides_v[i] = mul;
                    if i > 0 {
                        let d = shape[i];
                        proof {
                            lemma_contiguous_step_be(s, element_size, i as int);
                            lemma_contiguous_stride_nonneg(s, endian, element_size, i - 1);
                        }
                        if mul != 0 {
                            proof {
                                assert(d <= isize::MAX) by (nonlinear_arith)
                                    requires
                                        mul >= 1,
                                        d >= 0,
                                        mul * d <= isize::MAX,
                                        mul * d == contiguous_stride(s, endian, element_size, i - 1),
                                        contiguous_stride(s, endian, element_size, i - 1)
                                            <= isize::MAX,
                                ;
                            }
                            mul = mul * (d as isize);
                        } else {
                            proof {
                                let c = contiguous_stride(s, endian, element_size, i as int);
                                let dd = s[i as int] as int;
                                assert(c * dd == 0) by (nonlinear_arith)
                                    requires
                                        c == 0,
                                ;
                            }
                        }
                    }
                }
            },
            Endian::LittleEndian => {
                let mut i: usize = 0;
                while i < n
                    invariant
                        i <= n,
                        strides_v@.len() == i,
                        forall|j: int|
                            0 <= j < i ==> strides_v@[j] == contiguous_stride(
                                s,
                                endian,
                                element_size,
                                j,
                            ),
                        i < n ==> mul == contiguous_stride(s, endian, element_size, i as int),
                        mul >= 0,
                    decreases n - i,
                {
                    strides_v.push(mul);
                    if i + 1 < n {
                        let d = shape[i];
                        proof {
                            lemma_contiguous_step_le(s, element_size, i as int);
                            lemma_contiguous_stride_nonneg(s, endian, element_size, i + 1);
                        }
                        if mul != 0 {
                            proof {
                                assert(d <= isize::MAX) by (nonlinear_arith)
                                    requires
                                        mul >= 1,
                                        d >= 0,
                                        mul * d <= isize::MAX,
                                        mul * d == contiguous_stride(s, endian, element_size, i + 1),
                                        contiguous_stride(s, endian, element_size, i + 1)
                                            <= isize::MAX,
                                ;
                            }
                            mul = mul * (d as isize);
                        } else {
                            proof {
                                let c = contiguous_stride(s, endian, element_size, i as int);
                                let dd = s[i as int] as int;
                                assert(c * dd == 0) by (nonlinear_arith)
                                    requires
                                        c == 0,
                                ;
                            }
                        }
                    }
                    i += 1;
                }
            },
        }
        Self::from_parts(0, vstd::slice::slice_to_vec(shape), strides_v)
    }

    /// The stored invariant keeps shape and strides at the same length, so
    /// every layout's view is well-formed.
    proof fn inv_implies_wf(&self)
        requires
            self.inv(),
        ensures
            self@.wf(),
    {
    }

    /// Gets the number of axes.
    pub fn ndim(&self) -> (r: usize)
        ensures
            r == self@.shape.len(),
            r == self@.strides.len(),
    {
        proof {
            use_type_invariant(self);
        }
        self.ndim
    }

    /// Gets the offset.
    pub fn offset(&self) -> (r: isize)
        ensures
            r == self@.offset,
    {
        match &self.content {
            Storage::Inline { offset, .. } => *offset,
            Storage::Heap { offset, .. } => *offset,
        }
    }

    /// Gets the shape.
    pub fn shape(&self) -> (r: &[usize])
        ensures
            r@ == self@.shape,
    {
        proof {
            use_type_invariant(self);
        }
        match &self.content {
            Storage::Inline { shape, .. } => {
                let s = vstd::slice::slice_subrange(shape.as_slice(), 0, self.ndim);
                proof {
                    assert(s@ =~= self@.shape);
                }
                s
            },
            Storage::Heap { shape, .. } => shape.as_slice(),
        }
    }

    /// Calculates the inclusive range of linear positions the layout can
    /// address, so a buffer-owning caller can size or bounds-check its
    /// allocation. Both ends start at the offset; every negative-stride axis
    /// pushes the lower end down by `(extent - 1) * stride`, every
    /// positive-stride axis pushes the upper end up by the same amount, and
    /// zero-stride axes contribute nothing.
    #[verifier::loop_isolation(false)]
    pub fn data_range(&self) -> (r: RangeInclusive<isize>)
        requires
            forall|k: int|
                0 <= k < self@.rank() && self@.strides[k] != 0 ==> self@.shape[k] <= isize::MAX,
            forall|k: int|
                0 <= k < self@.rank() && self@.strides[k] != 0 ==> isize::MIN <= (self@.shape[k]
                    - 1) * self@.strides[k] <= isize::MAX,
            forall|k: int|
                0 <= k <= self@.rank() ==> isize::MIN <= #[trigger] lowest_position(self@, k)
                    <= isize::MAX,
            forall|k: int|
                0 <= k <= self@.rank() ==> isize::MIN <= #[trigger] highest_position(self@, k)
                    <= isize::MAX,
        ensures
            r@.start == lowest_position(self@, self@.rank()),
            r@.end == highest_position(self@, self@.rank()),
            r@.exhausted == false,
    {
        let n = self.ndim();
        let shape = self.shape();
        let strides = self.strides();
        let mut start = self.offset();
        let mut end = start;
        let mut i: usize = 0;
        while i < n
            invariant
                i <= n,
                start == lowest_position(self@, i as int),
                end == highest_position(self@, i as int),
            decreases n - i,
        {
            let d = shape[i];
            let s = strides[i];
            proof {
                let kk = i as int;
                if s != 0 {
                    assert(isize::MIN <= (self@.shape[kk] - 1) * self@.strides[kk] <= isize::MAX);
                    assert(self@.shape[kk] <= isize::MAX);
                }
                assert(isize::MIN <= lowest_position(self@, kk + 1) <= isize::MAX);
                assert(isize::MIN <= highest_position(self@, kk + 1) <= isize::MAX);
            }
            if s < 0 {
                let e = (d as isize) - 1;
                start = start + s * e;
            } else if s > 0 {
                let e = (d as isize) - 1;
                end = end + s * e;
            }
            i += 1;
        }
        RangeInclusive::new(start, end)
    }

    /// Gets the strides.
    pub fn strides(&self) -> (r: &[isize])
        ensures
            r@ == self@.strides,
    {
        proof {
            use_type_invariant(self);
        }
        match &self.content {
            Storage::Inline { strides, .. } => {
                let s = vstd::slice::slice_subrange(strides.as_slice(), 0, self.ndim);
                proof {
                    assert(s@ =~= self@.strides);
                }
                s
            },
            Storage::Heap { strides, .. } => strides.as_slice(),
        }
    }
}

/// Storage-representation independence: two layouts agreeing on offset,
/// shape and strides are the same layout, whatever their inline capacities —
/// and so whether each is stored inline or in a heap block. Together with
/// [`ArrayLayout::new`]'s postcondition, which fixes the view from the
/// arguments alone for every capacity, the representation can never show
/// through the public interface.
pub proof fn lemma_representation_independence<const A: usize, const B: usize>(
    x: ArrayLayout<A>,
    y: ArrayLayout<B>,
)
    requires
        x@.offset == y@.offset,
        x@.shape == y@.shape,
        x@.strides == y@.strides,
    ensures
        x@ == y@,
{
    assert(x@ =~= y@);
}

impl<const N: usize> Clone for ArrayLayout<N> {
    /// Duplicates the layout. A heap-backed layout gets a fresh block of its
    /// own: two live layouts never share backing storage.
    fn clone(&self) -> (r: Self)
        ensures
            r@ == self@,
    {
        proof {
            use_type_invariant(self);
        }
        let r = Self::from_parts(
            self.offset(),
            vstd::slice::slice_to_vec(self.shape()),
            vstd::slice::slice_to_vec(self.strides()),
        );
        proof {
            assert(r@ =~= self@);
        }
        r
    }
}

impl<const N: usize> PartialEq for ArrayLayout<N> {
    /// Two layouts are equal exactly when offset, shape and strides agree;
    /// the storage representation plays no part.
    fn eq(&self, other: &Self) -> (r: bool) {
        if self.ndim() != other.ndim() {
            return false;
        }
        if self.offset() != other.offset() {
            return false;
        }
        let n = self.ndim();
        let a_shape = self.shape();
        let b_shape = other.shape();
        let a_strides = self.strides();
        let b_strides = other.strides();
        let mut i: usize = 0;
        while i < n
            invariant
                i <= n,
                n == self@.shape.len() == other@.shape.len(),
                n == self@.strides.len() == other@.strides.len(),
                a_shape@ == self@.shape,
                b_shape@ == other@.shape,
                a_strides@ == self@.strides,
                b_strides@ == other@.strides,
                self@.offset == other@.offset,
                forall|j: int| 0 <= j < i ==> self@.shape[j] == other@.shape[j],
                forall|j: int| 0 <= j < i ==> self@.strides[j] == other@.strides[j],
            decreases n - i,
        {
            if a_shape[i] != b_shape[i] {
                return false;
            }
            if a_strides[i] != b_strides[i] {
                return false;
            }
            i += 1;
        }
        proof {
            assert(self@ =~= other@);
        }
        true
    }
}

impl<const N: usize> vstd::std_specs::cmp::PartialEqSpecImpl for ArrayLayout<N> {
    open spec fn obeys_eq_spec() -> bool {
        true
    }

    open spec fn eq_spec(&self, other: &ArrayLayout<N>) -> bool {
        self@ == other@
    }
}

impl<const N: usize> Eq for ArrayLayout<N> {

}

} // verus!
