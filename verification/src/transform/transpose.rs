//! Transpose transform: permute axis order without touching the offset or
//! any axis's own shape/stride pair.

use vstd::prelude::*;

verus! {

use crate::{ArrayLayout, LayoutView};

/// How many entries of `perm` are smaller than `i`.
pub open spec fn count_below(perm: Seq<usize>, i: int) -> int
    decreases perm.len(),
{
    if perm.len() == 0 {
        0
    } else {
        count_below(perm.drop_last(), i) + if perm.last() < i {
            1int
        } else {
            0int
        }
    }
}

/// The axis positions named by a permutation are rearranged among
/// themselves: the named positions, taken in ascending order, receive the
/// entries of `perm` in the order given, and every position receives the
/// value the axis it names held before. Positions not named keep their own
/// value. A named position `i` is the `count_below(perm, i)`-th smallest
/// named position, so it receives the value at axis `perm[count_below]`.
pub open spec fn transposed<T>(s: Seq<T>, perm: Seq<usize>) -> Seq<T> {
    Seq::new(
        s.len(),
        |i: int|
            if perm.contains(i as usize) {
                s[perm[count_below(perm, i)] as int]
            } else {
                s[i]
            },
    )
}

/// How many entries of `perm` equal `i`.
spec fn count_eq(perm: Seq<usize>, i: int) -> int
    decreases perm.len(),
{
    if perm.len() == 0 {
        0
    } else {
        count_eq(perm.drop_last(), i) + if perm.last() == i {
            1int
        } else {
            0int
        }
    }
}

proof fn lemma_count_below_succ(perm: Seq<usize>, i: int)
    ensures
        count_below(perm, i + 1) == count_below(perm, i) + count_eq(perm, i),
    decreases perm.len(),
{
    if perm.len() > 0 {
        lemma_count_below_succ(perm.drop_last(), i);
    }
}

proof fn lemma_count_eq_absent(perm: Seq<usize>, i: int)
    requires
        !perm.contains(i as usize),
        0 <= i <= usize::MAX,
    ensures
        count_eq(perm, i) == 0,
    decreases perm.len(),
{
    if perm.len() > 0 {
        assert(perm.last() != i) by {
            assert(perm[perm.len() - 1] == perm.last());
        }
        assert(!perm.drop_last().contains(i as usize)) by {
            if perm.drop_last().contains(i as usize) {
                let w = perm.drop_last().index_of(i as usize);
                assert(perm[w] == i as usize);
            }
        }
        lemma_count_eq_absent(perm.drop_last(), i);
    }
}

proof fn lemma_count_eq_once(perm: Seq<usize>, i: int)
    requires
        perm.contains(i as usize),
        0 <= i <= usize::MAX,
        forall|j: int, k: int| 0 <= j < k < perm.len() ==> perm[j] != perm[k],
    ensures
        count_eq(perm, i) == 1,
    decreases perm.len(),
{
    let w0 = perm.index_of(i as usize);
    assert(0 <= w0 < perm.len());
    assert(perm[w0] == i as usize);
    if perm.last() == i as usize {
        assert(!perm.drop_last().contains(i as usize)) by {
            if perm.drop_last().contains(i as usize) {
                let w = perm.drop_last().index_of(i as usize);
                assert(perm[w] == i as usize);
                assert(perm[perm.len() - 1] == i as usize);
            }
        }
        lemma_count_eq_absent(perm.drop_last(), i);
    } else {
        assert(perm.drop_last().contains(i as usize)) by {
            let w = perm.index_of(i as usize);
            assert(w < perm.len() - 1);
            assert(perm.drop_last()[w] == i as usize);
        }
        lemma_count_eq_once(perm.drop_last(), i);
    }
}

/// For a permutation of all the axes, the `i`-th smallest entry is `i`
/// itself, so position `i` sources from axis `perm[i]`.
proof fn lemma_count_below_full(perm: Seq<usize>, n: int, i: int)
    requires
        perm.len() == n,
        n <= usize::MAX,
        0 <= i <= n,
        forall|k: int| 0 <= k < n ==> (#[trigger] perm[k]) < n,
        forall|j: int, k: int| 0 <= j < k < n ==> perm[j] != perm[k],
        forall|x: int| 0 <= x < n ==> #[trigger] perm.contains(x as usize),
    ensures
        count_below(perm, i) == i,
    decreases i,
{
    if i == 0 {
        lemma_count_below_zero(perm);
    } else {
        lemma_count_below_full(perm, n, i - 1);
        lemma_count_below_succ(perm, i - 1);
        lemma_count_eq_once(perm, i - 1);
    }
}

proof fn lemma_count_below_zero(perm: Seq<usize>)
    ensures
        count_below(perm, 0) == 0,
    decreases perm.len(),
{
    if perm.len() > 0 {
        lemma_count_below_zero(perm.drop_last());
    }
}

/// Transposing by a permutation of all the axes and then by its inverse
/// gives back the original layout.
pub proof fn lemma_transpose_round_trip(v: LayoutView, p: Seq<usize>, q: Seq<usize>)
    requires
        v.wf(),
        v.rank() <= usize::MAX,
        p.len() == v.rank(),
        q.len() == v.rank(),
        forall|k: int| 0 <= k < p.len() ==> (#[trigger] p[k]) < v.rank(),
        forall|k: int| 0 <= k < q.len() ==> (#[trigger] q[k]) < v.rank(),
        forall|k: int| 0 <= k < p.len() ==> #[trigger] q[p[k] as int] == k,
        forall|k: int| 0 <= k < q.len() ==> #[trigger] p[q[k] as int] == k,
    ensures
        transposed(transposed(v.shape, p), q) == v.shape,
        transposed(transposed(v.strides, p), q) == v.strides,
{
    lemma_transposed_involution(v.shape, p, q);
    lemma_transposed_involution(v.strides, p, q);
}

/// Gathering by a full permutation and then by its inverse restores any
/// sequence of the same length.
proof fn lemma_transposed_involution<T>(s: Seq<T>, p: Seq<usize>, q: Seq<usize>)
    requires
        s.len() <= usize::MAX,
        p.len() == s.len(),
        q.len() == s.len(),
        forall|k: int| 0 <= k < p.len() ==> (#[trigger] p[k]) < s.len(),
        forall|k: int| 0 <= k < q.len() ==> (#[trigger] q[k]) < s.len(),
        forall|k: int| 0 <= k < p.len() ==> #[trigger] q[p[k] as int] == k,
        forall|k: int| 0 <= k < q.len() ==> #[trigger] p[q[k] as int] == k,
    ensures
        transposed(transposed(s, p), q) == s,
{
    let n = s.len() as int;
    assert forall|j: int, k: int| 0 <= j < k < n implies p[j] != p[k] by {
        assert(q[p[j] as int] == j);
        assert(q[p[k] as int] == k);
    }
    assert forall|j: int, k: int| 0 <= j < k < n implies q[j] != q[k] by {
        assert(p[q[j] as int] == j);
        assert(p[q[k] as int] == k);
    }
    assert forall|x: int| 0 <= x < n implies #[trigger] p.contains(x as usize) by {
        assert(p[q[x] as int] == x);
    }
    assert forall|x: int| 0 <= x < n implies #[trigger] q.contains(x as usize) by {
        assert(q[p[x] as int] == x);
    }
    let t1 = transposed(s, p);
    let t2 = transposed(t1, q);
    assert forall|i: int| 0 <= i < n implies t1[i] == s[p[i] as int] by {
        lemma_count_below_full(p, n, i);
    }
    assert forall|i: int| 0 <= i < n implies t2[i] == s[i] by {
        lemma_count_below_full(q, n, i);
        assert(t2[i] == t1[q[i] as int]);
        assert(t1[q[i] as int] == s[p[q[i] as int] as int]);
    }
    assert(t2 =~= s);
}

impl<const N: usize> ArrayLayout<N> {
    /// Reorders axes: the positions named in `perm`, taken in ascending
    /// order, receive the shape/stride pairs of the axes `perm` names, in
    /// the order given; axes not named keep their place. The offset never
    /// changes.
    #[verifier::loop_isolation(false)]
    #[verifier::rlimit(60)]
    pub fn transpose(&self, perm: &[usize]) -> (r: Self)
        requires
            forall|k: int| 0 <= k < perm@.len() ==> (#[trigger] perm@[k]) < self@.rank(),
            forall|j: int, k: int| 0 <= j < k < perm@.len() ==> perm@[j] != perm@[k],
        ensures
            r@.offset == self@.offset,
            r@.shape == transposed(self@.shape, perm@),
            r@.strides == transposed(self@.strides, perm@),
    {
        let n = self.ndim();
        let shape = self.shape();
        let strides = self.strides();
        let mut new_shape: Vec<usize> = Vec::new();
        let mut new_strides: Vec<isize> = Vec::new();
        let mut i: usize = 0;
        while i < n
            invariant
                i <= n,
                new_shape@.len() == i,
                new_strides@.len() == i,
                forall|j: int| 0 <= j < i ==> new_shape@[j] == transposed(self@.shape, perm@)[j],
                forall|j: int|
                    0 <= j < i ==> new_strides@[j] == transposed(self@.strides, perm@)[j],
            decreases n - i,
        {
            let mut cnt: usize = 0;
            let mut found = false;
            let mut k: usize = 0;
            while k < perm.len()
                invariant
                    k <= perm@.len(),
                    cnt == count_below(perm@.take(k as int), i as int),
                    found == perm@.take(k as int).contains(i),
                    found ==> cnt < k,
                    cnt <= k,
                decreases perm@.len() - k,
            {
                proof {
                    let pre = perm@.take(k as int);
                    let cur = perm@.take(k + 1);
                    assert(cur.drop_last() =~= pre);
                    assert(cur.last() == perm@[k as int]);
                    if perm@[k as int] == i {
                        assert(cur[k as int] == i);
                        assert(cur.contains(i));
                    }
                    if pre.contains(i) {
                        let w = pre.index_of(i);
                        assert(cur[w] == i);
                        assert(cur.contains(i));
                    }
                    if cur.contains(i) && perm@[k as int] != i {
                        let w = cur.index_of(i);
                        assert(w < k);
                        assert(pre[w] == i);
                        assert(pre.contains(i));
                    }
                }
                if perm[k] < i {
                    cnt += 1;
                }
                if perm[k] == i {
                    found = true;
                }
                k += 1;
            }
            proof {
                assert(perm@.take(perm@.len() as int) =~= perm@);
            }
            if found {
                let src = perm[cnt];
                new_shape.push(shape[src]);
                new_strides.push(strides[src]);
            } else {
                new_shape.push(shape[i]);
                new_strides.push(strides[i]);
            }
            i += 1;
        }
        proof {
            assert(new_shape@ =~= transposed(self@.shape, perm@));
            assert(new_strides@ =~= transposed(self@.strides, perm@));
        }
        Self::from_parts(self.offset(), new_shape, new_strides)
    }
}

} // verus!
