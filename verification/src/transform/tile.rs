//! Tile transform: split one axis into several new axes whose extents
//! multiply to the original extent, inserted in the axis's place.

use vstd::prelude::*;

verus! {

use crate::{ArrayLayout, LayoutView, extent_prod};
use crate::transform::ascending;

/// One axis split for [`ArrayLayout::tile_many`].
#[derive(Clone, Copy, Debug)]
pub struct TileArg<'a> {
    /// The axis to split.
    pub axis: usize,
    /// The ordering policy for the new axes.
    pub order: TileOrder,
    /// The extents of the new axes; their product must equal the extent of
    /// the axis being split.
    pub tiles: &'a [usize],
}

/// Ordering policy for the axes a tile produces.
#[derive(Clone, Copy, PartialEq, Eq, Structural, Hash, Debug)]
pub enum TileOrder {
    /// Earlier new axes range wider: strides shrink from the whole extent's
    /// worth down to the original stride.
    BigEndian,
    /// Earlier new axes range narrower: strides grow from the original
    /// stride upward.
    LittleEndian,
}

/// The multiple of the original stride carried by the `j`-th new axis: under
/// big-endian ordering the product of the tile extents after `j`, under
/// little-endian ordering the product of those before `j`.
pub open spec fn tile_factor(tiles: Seq<usize>, order: TileOrder, j: int) -> int {
    match order {
        TileOrder::BigEndian => extent_prod(tiles, j + 1, tiles.len() as int),
        TileOrder::LittleEndian => extent_prod(tiles, 0, j),
    }
}

/// The layout after one axis is tiled: the tile extents replace the axis in
/// the shape, and each new axis takes the original stride times its
/// [`tile_factor`].
pub open spec fn tile_view(
    v: LayoutView,
    axis: int,
    tiles: Seq<usize>,
    order: TileOrder,
) -> LayoutView {
    LayoutView {
        offset: v.offset,
        shape: v.shape.take(axis) + tiles + v.shape.skip(axis + 1),
        strides: v.strides.take(axis) + Seq::new(
            tiles.len(),
            |j: int| (v.strides[axis] * tile_factor(tiles, order, j)) as isize,
        ) + v.strides.skip(axis + 1),
    }
}

/// The layout after several tile arguments, applied from the last
/// (highest-axis) argument backwards, so each application happens at its
/// original axis position.
pub open spec fn tile_many_view<'a>(v: LayoutView, args: Seq<TileArg<'a>>) -> LayoutView
    decreases args.len(),
{
    if args.len() == 0 {
        v
    } else {
        tile_view(
            tile_many_view(v, args.subrange(1, args.len() as int)),
            args[0].axis as int,
            args[0].tiles@,
            args[0].order,
        )
    }
}

/// The axes a sequence of tile arguments targets, in argument order.
pub open spec fn tile_axes<'a>(args: Seq<TileArg<'a>>) -> Seq<usize> {
    args.map_values(|a: TileArg<'a>| a.axis)
}

/// What one tile argument asks of the layout it is applied to.
pub open spec fn tile_arg_ok(v: LayoutView, axis: int, tiles: Seq<usize>, order: TileOrder) -> bool {
    &&& 0 <= axis < v.rank()
    &&& tiles.len() >= 1
    &&& v.shape[axis] == extent_prod(tiles, 0, tiles.len() as int)
    &&& forall|j: int| 0 <= j < tiles.len() ==> (#[trigger] tiles[j]) <= isize::MAX
    &&& order == TileOrder::BigEndian ==> forall|j: int|
        0 <= j < tiles.len() ==> (#[trigger] tiles[j]) >= 1
    &&& forall|j: int|
        0 <= j < tiles.len() ==> isize::MIN <= v.strides[axis] * #[trigger] tile_factor(
            tiles,
            order,
            j,
        ) <= isize::MAX
}

/// Tiling axes strictly above `a` leaves everything at or below `a`, and the
/// offset, untouched; the rank never shrinks.
proof fn lemma_tile_many_prefix<'a>(v: LayoutView, args: Seq<TileArg<'a>>, a: int)
    requires
        v.wf(),
        forall|k: int|
            0 <= k < args.len() ==> a < (#[trigger] args[k]).axis < v.rank() && args[k].tiles@.len()
                >= 1,
    ensures
        tile_many_view(v, args).wf(),
        tile_many_view(v, args).shape.len() >= v.shape.len(),
        tile_many_view(v, args).offset == v.offset,
        forall|j: int| 0 <= j <= a ==> #[trigger] tile_many_view(v, args).shape[j] == v.shape[j],
        forall|j: int|
            0 <= j <= a ==> #[trigger] tile_many_view(v, args).strides[j] == v.strides[j],
    decreases args.len(),
{
    if args.len() > 0 {
        let tail = args.subrange(1, args.len() as int);
        lemma_tile_many_prefix(v, tail, a);
        let inner = tile_many_view(v, tail);
        let axis = args[0].axis as int;
        let tiles = args[0].tiles@;
        let r = tile_view(inner, axis, tiles, args[0].order);
        assert(r.shape.len() == axis + tiles.len() + (inner.shape.len() - axis - 1));
        assert forall|j: int|
            0 <= j <= a implies #[trigger] tile_many_view(v, args).shape[j] == v.shape[j] by {
            assert(j < axis);
            assert(tile_many_view(v, tail).shape[j] == v.shape[j]);
            assert(r.shape[j] == inner.shape.take(axis)[j]);
        }
        assert forall|j: int|
            0 <= j <= a implies #[trigger] tile_many_view(v, args).strides[j] == v.strides[j] by {
            assert(j < axis);
            assert(tile_many_view(v, tail).strides[j] == v.strides[j]);
            assert(r.strides[j] == inner.strides.take(axis)[j]);
        }
    }
}

impl<const N: usize> ArrayLayout<N> {
    /// Splits one axis into `tiles.len()` new axes in its place. Under each
    /// ordering policy the new strides are the original stride times the
    /// extents packed more tightly, so the same memory cells are reachable.
    #[verifier::loop_isolation(false)]
    fn tile_at(&self, axis: usize, tiles: &[usize], order: TileOrder) -> (r: Self)
        requires
            tile_arg_ok(self@, axis as int, tiles@, order),
        ensures
            r@ == tile_view(self@, axis as int, tiles@, order),
    {
        proof {
            use_type_invariant(self);
            self.inv_implies_wf();
        }
        let n = self.ndim();
        let shape = self.shape();
        let strides = self.strides();
        let s = strides[axis];
        let sv = tile_stride_vec(s, tiles, order);
        let mut new_shape: Vec<usize> = Vec::new();
        let mut new_strides: Vec<isize> = Vec::new();
        let mut i: usize = 0;
        while i < axis
            invariant
                i <= axis,
                new_shape@ == self@.shape.take(i as int),
                new_strides@ == self@.strides.take(i as int),
            decreases axis - i,
        {
            proof {
                assert(self@.shape.take(i + 1) =~= self@.shape.take(i as int).push(
                    self@.shape[i as int],
                ));
                assert(self@.strides.take(i + 1) =~= self@.strides.take(i as int).push(
                    self@.strides[i as int],
                ));
            }
            new_shape.push(shape[i]);
            new_strides.push(strides[i]);
            i += 1;
        }
        let mut j: usize = 0;
        while j < tiles.len()
            invariant
                j <= tiles@.len(),
                new_shape@ == self@.shape.take(axis as int) + tiles@.take(j as int),
                new_strides@ == self@.strides.take(axis as int) + Seq::new(
                    j as nat,
                    |q: int| (self@.strides[axis as int] * tile_factor(tiles@, order, q)) as isize,
                ),
            decreases tiles@.len() - j,
        {
            proof {
                assert(isize::MIN <= self@.strides[axis as int] * tile_factor(tiles@, order, j as int)
                    <= isize::MAX);
                assert(tiles@.take(j + 1) =~= tiles@.take(j as int).push(tiles@[j as int]));
                assert(self@.shape.take(axis as int) + tiles@.take(j + 1) =~= (self@.shape.take(
                    axis as int,
                ) + tiles@.take(j as int)).push(tiles@[j as int]));
                assert(self@.strides.take(axis as int) + Seq::new(
                    (j + 1) as nat,
                    |q: int| (self@.strides[axis as int] * tile_factor(tiles@, order, q)) as isize,
                ) =~= (self@.strides.take(axis as int) + Seq::new(
                    j as nat,
                    |q: int| (self@.strides[axis as int] * tile_factor(tiles@, order, q)) as isize,
                )).push((self@.strides[axis as int] * tile_factor(tiles@, order, j as int)) as isize));
            }
            new_shape.push(tiles[j]);
            new_strides.push(sv[j]);
            j += 1;
        }
        let mut i: usize = axis + 1;
        while i < n
            invariant
                axis + 1 <= i <= n,
                new_shape@ == self@.shape.take(axis as int) + tiles@ + self@.shape.subrange(
                    axis + 1,
                    i as int,
                ),
                new_strides@ == self@.strides.take(axis as int) + Seq::new(
                    tiles@.len(),
                    |q: int| (self@.strides[axis as int] * tile_factor(tiles@, order, q)) as isize,
                ) + self@.strides.subrange(axis + 1, i as int),
            decreases n - i,
        {
            proof {
                assert(self@.shape.subrange(axis + 1, i + 1) =~= self@.shape.subrange(
                    axis + 1,
                    i as int,
                ).push(self@.shape[i as int]));
                assert(self@.shape.take(axis as int) + tiles@ + self@.shape.subrange(
                    axis + 1,
                    i + 1,
                ) =~= (self@.shape.take(axis as int) + tiles@ + self@.shape.subrange(
                    axis + 1,
                    i as int,
                )).push(self@.shape[i as int]));
                assert(self@.strides.subrange(axis + 1, i + 1) =~= self@.strides.subrange(
                    axis + 1,
                    i as int,
                ).push(self@.strides[i as int]));
                let mid = Seq::new(
                    tiles@.len(),
                    |q: int| (self@.strides[axis as int] * tile_factor(tiles@, order, q)) as isize,
                );
                assert(self@.strides.take(axis as int) + mid + self@.strides.subrange(
                    axis + 1,
                    i + 1,
                ) =~= (self@.strides.take(axis as int) + mid + self@.strides.subrange(
                    axis + 1,
                    i as int,
                )).push(self@.strides[i as int]));
            }
            new_shape.push(shape[i]);
            new_strides.push(strides[i]);
            i += 1;
        }
        proof {
            assert(tiles@.take(tiles@.len() as int) =~= tiles@);
            assert(self@.shape.subrange(axis + 1, n as int) =~= self@.shape.skip(axis + 1));
            assert(self@.strides.subrange(axis + 1, n as int) =~= self@.strides.skip(axis + 1));
        }
        let r = Self::from_parts(self.offset(), new_shape, new_strides);
        proof {
            assert(r@ =~= tile_view(self@, axis as int, tiles@, order));
        }
        r
    }

    /// Splits one axis with big-endian ordering: earlier new axes range
    /// wider.
    pub fn tile_be(&self, axis: usize, tiles: &[usize]) -> (r: Self)
        requires
            tile_arg_ok(self@, axis as int, tiles@, TileOrder::BigEndian),
        ensures
            r@ == tile_view(self@, axis as int, tiles@, TileOrder::BigEndian),
    {
        self.tile_at(axis, tiles, TileOrder::BigEndian)
    }

    /// Splits one axis with little-endian ordering: earlier new axes range
    /// narrower.
    pub fn tile_le(&self, axis: usize, tiles: &[usize]) -> (r: Self)
        requires
            tile_arg_ok(self@, axis as int, tiles@, TileOrder::LittleEndian),
        ensures
            r@ == tile_view(self@, axis as int, tiles@, TileOrder::LittleEndian),
    {
        self.tile_at(axis, tiles, TileOrder::LittleEndian)
    }

    /// Tiles several axes at once; the axes must be strictly ascending, and
    /// every argument is checked against the *original* shape. The result is
    /// the same as tiling each axis separately.
    #[verifier::loop_isolation(false)]
    pub fn tile_many(&self, args: &[TileArg]) -> (r: Self)
        requires
            ascending(tile_axes(args@)),
            forall|k: int|
                0 <= k < args@.len() ==> tile_arg_ok(
                    self@,
                    (#[trigger] args@[k]).axis as int,
                    args@[k].tiles@,
                    args@[k].order,
                ),
        ensures
            r@ == tile_many_view(self@, args@),
    {
        proof {
            use_type_invariant(self);
            self.inv_implies_wf();
        }
        let mut r = self.clone();
        let mut k: usize = args.len();
        while k > 0
            invariant
                k <= args@.len(),
                r@ == tile_many_view(self@, args@.skip(k as int)),
            decreases k,
        {
            k -= 1;
            let ghost tail = args@.skip(k + 1);
            proof {
                assert forall|w: int| 0 <= w < tail.len() implies (args@[k as int].axis as int) < (
                #[trigger] tail[w]).axis < self@.rank() && tail[w].tiles@.len() >= 1 by {
                    assert(tail[w] == args@[k + 1 + w]);
                    assert(tile_axes(args@)[k as int] == args@[k as int].axis);
                    assert(tile_axes(args@)[k + 1 + w] == args@[k + 1 + w].axis);
                    assert(tile_arg_ok(
                        self@,
                        args@[k + 1 + w].axis as int,
                        args@[k + 1 + w].tiles@,
                        args@[k + 1 + w].order,
                    ));
                }
                lemma_tile_many_prefix(self@, tail, args@[k as int].axis as int);
                assert(tile_arg_ok(
                    self@,
                    args@[k as int].axis as int,
                    args@[k as int].tiles@,
                    args@[k as int].order,
                ));
                assert(r@.shape[args@[k as int].axis as int] == self@.shape[args@[k as int].axis as int]);
                assert(r@.strides[args@[k as int].axis as int] == self@.strides[args@[k as int].axis as int]);
            }
            r = r.tile_at(args[k].axis, args[k].tiles, args[k].order);
            proof {
                assert(args@.skip(k as int)[0] == args@[k as int]);
                assert(args@.skip(k as int).subrange(1, args@.skip(k as int).len() as int) =~= args@.skip(
                    k + 1,
                ));
            }
        }
        proof {
            assert(args@.skip(0) =~= args@);
        }
        r
    }
}

/// Computes the strides of the new axes one tile produces: the original
/// stride times each axis's [`tile_factor`].
#[verifier::loop_isolation(false)]
fn tile_stride_vec(s: isize, tiles: &[usize], order: TileOrder) -> (r: Vec<isize>)
    requires
        tiles@.len() >= 1,
        forall|j: int| 0 <= j < tiles@.len() ==> (#[trigger] tiles@[j]) <= isize::MAX,
        order == TileOrder::BigEndian ==> forall|j: int|
            0 <= j < tiles@.len() ==> (#[trigger] tiles@[j]) >= 1,
        forall|j: int|
            0 <= j < tiles@.len() ==> isize::MIN <= s * #[trigger] tile_factor(tiles@, order, j)
                <= isize::MAX,
    ensures
        r@.len() == tiles@.len(),
        forall|j: int| 0 <= j < tiles@.len() ==> r@[j] == s * tile_factor(tiles@, order, j),
{
    let n = tiles.len();
    let ghost ts = tiles@;
    proof {
        match order {
            TileOrder::BigEndian => {
                let p = extent_prod(ts, n as int, n as int);
                assert(p == 1);
                assert((s as int) * p == s as int) by (nonlinear_arith)
                    requires
                        p == 1,
                ;
                assert(tile_factor(ts, order, n - 1) == 1);
            },
            TileOrder::LittleEndian => {
                let p = extent_prod(ts, 0, 0);
                assert(p == 1);
                assert((s as int) * p == s as int) by (nonlinear_arith)
                    requires
                        p == 1,
                ;
                assert(tile_factor(ts, order, 0) == 1);
            },
        }
    }
    let mut mul: isize = s;
    match order {
        TileOrder::BigEndian => {
            let mut v: Vec<isize> = vec![0isize; n];
            let mut i: usize = n;
            while i > 0
                invariant
                    i <= n,
                    v@.len() == n,
                    forall|j: int| i <= j < n ==> v@[j] == s * tile_factor(ts, order, j),
                    i > 0 ==> mul == s * tile_factor(ts, order, i - 1),
                decreases i,
            {
                i -= 1;
                v[i] = mul;
                if i > 0 {
                    let t = tiles[i];
                    proof {
                        lemma_tile_step_be(ts, s as int, i as int);
                        let cur = s * tile_factor(ts, order, i as int);
                        let nxt = s * tile_factor(ts, order, i - 1);
                        let tt = ts[i as int] as int;
                        if mul == 0 {
                            assert(cur * tt == 0) by (nonlinear_arith)
                                requires
                                    cur == 0,
                            ;
                        } else {
                            assert(mul * tt == nxt);
                        }
                    }
                    mul = mul * (t as isize);
                }
            }
            v
        },
        TileOrder::LittleEndian => {
            let mut v: Vec<isize> = Vec::new();
            let mut i: usize = 0;
            while i < n
                invariant
                    i <= n,
                    v@.len() == i,
                    forall|j: int| 0 <= j < i ==> v@[j] == s * tile_factor(ts, order, j),
                    i < n ==> mul == s * tile_factor(ts, order, i as int),
                decreases n - i,
            {
                v.push(mul);
                if i + 1 < n {
                    let t = tiles[i];
                    proof {
                        lemma_tile_step_le(ts, s as int, i as int);
                        let cur = s * tile_factor(ts, order, i as int);
                        let nxt = s * tile_factor(ts, order, i + 1);
                        let tt = ts[i as int] as int;
                        if mul == 0 {
                            assert(cur * tt == 0) by (nonlinear_arith)
                                requires
                                    cur == 0,
                            ;
                        } else {
                            assert(mul * tt == nxt);
                        }
                    }
                    mul = mul * (t as isize);
                }
                i += 1;
            }
            v
        },
    }
}

/// Under big-endian ordering, each axis's stride is its right neighbour's
/// stride times that neighbour's extent.
proof fn lemma_tile_step_be(tiles: Seq<usize>, s: int, i: int)
    requires
        1 <= i < tiles.len(),
    ensures
        s * tile_factor(tiles, TileOrder::BigEndian, i - 1) == (s * tile_factor(
            tiles,
            TileOrder::BigEndian,
            i,
        )) * tiles[i],
{
    let n = tiles.len() as int;
    let d = tiles[i] as int;
    let p = extent_prod(tiles, i + 1, n);
    assert(extent_prod(tiles, i, n) == d * p);
    assert(s * (d * p) == (s * p) * d) by (nonlinear_arith);
}

/// Under little-endian ordering, each axis's stride is its left neighbour's
/// stride times that neighbour's extent.
proof fn lemma_tile_step_le(tiles: Seq<usize>, s: int, i: int)
    requires
        0 <= i < tiles.len(),
    ensures
        s * tile_factor(tiles, TileOrder::LittleEndian, i + 1) == (s * tile_factor(
            tiles,
            TileOrder::LittleEndian,
            i,
        )) * tiles[i],
{
    let d = tiles[i] as int;
    let p = extent_prod(tiles, 0, i);
    crate::lemma_extent_prod_snoc(tiles, 0, i);
    assert(s * (p * d) == (s * p) * d) by (nonlinear_arith);
}

} // verus!
