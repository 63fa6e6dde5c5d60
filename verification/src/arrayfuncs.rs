//! N-dimensional arrays of rationals and the finite-difference utility.
//!
//! An array is a shape together with its elements in row-major order. The
//! element at multi-index `(pre, i, q)` relative to an axis — `pre` ranking
//! the axes before it, `i` the position along it, `q` ranking the axes after
//! it — sits at flat offset `pre * (alen * blk) + i * blk + q`, where `alen`
//! is the axis length and `blk` the product of the later dimensions.

use vstd::prelude::*;

use crate::rational::{q_eq, q_fits, q_sub, rat_wf, seq_wf, Rat};

verus! {

/// An n-dimensional array: row-major data and its shape.
#[derive(Debug)]
pub struct RatArray {
    pub shape: Vec<usize>,
    pub data: Vec<Rat>,
}

/// The number of elements a shape describes.
pub open spec fn dims_prod(s: Seq<usize>) -> int
    decreases s.len(),
{
    if s.len() == 0 {
        1
    } else {
        s[0] * dims_prod(s.drop_first())
    }
}

/// A well-formed array: at least one axis, row-major data of the exact
/// length, every element well formed.
pub open spec fn arr_wf(a: RatArray) -> bool {
    &&& a.shape@.len() >= 1
    &&& a.data@.len() == dims_prod(a.shape@)
    &&& seq_wf(a.data@)
}

/// The product of the dimensions before `ax`.
pub open spec fn outer_of(s: Seq<usize>, ax: int) -> int {
    dims_prod(s.take(ax))
}

/// The product of the dimensions after `ax`.
pub open spec fn block_of(s: Seq<usize>, ax: int) -> int {
    dims_prod(s.skip(ax + 1))
}

pub proof fn lemma_dims_prod_snoc(s: Seq<usize>, v: usize)
    ensures
        dims_prod(s.push(v)) == dims_prod(s) * v,
    decreases s.len(),
{
    reveal_with_fuel(dims_prod, 3);
    if s.len() == 0 {
        assert(s.push(v).drop_first() =~= Seq::<usize>::empty());
    } else {
        assert(s.push(v).drop_first() =~= s.drop_first().push(v));
        lemma_dims_prod_snoc(s.drop_first(), v);
        assert(s[0] * (dims_prod(s.drop_first()) * v) == (s[0] * dims_prod(s.drop_first())) * v)
            by (nonlinear_arith);
    }
}

/// Element counts are never negative.
pub proof fn lemma_dims_prod_nonneg(s: Seq<usize>)
    ensures
        dims_prod(s) >= 0,
    decreases s.len(),
{
    if s.len() > 0 {
        lemma_dims_prod_nonneg(s.drop_first());
        assert(s[0] * dims_prod(s.drop_first()) >= 0) by (nonlinear_arith)
            requires
                s[0] >= 0,
                dims_prod(s.drop_first()) >= 0,
        ;
    }
}

/// Cutting a shape in two splits its element count into a product.
pub proof fn lemma_dims_prod_concat(s: Seq<usize>, k: int)
    requires
        0 <= k <= s.len(),
    ensures
        dims_prod(s) == dims_prod(s.take(k)) * dims_prod(s.skip(k)),
    decreases k,
{
    reveal_with_fuel(dims_prod, 3);
    if k == 0 {
        assert(s.take(0) =~= Seq::<usize>::empty());
        assert(s.skip(0) =~= s);
    } else {
        lemma_dims_prod_concat(s.drop_first(), k - 1);
        assert(s.take(k).drop_first() =~= s.drop_first().take(k - 1));
        assert(s.skip(k) =~= s.drop_first().skip(k - 1));
        let h = dims_prod(s.take(k).drop_first());
        let t = dims_prod(s.skip(k));
        assert(dims_prod(s.take(k)) == s[0] * h);
        assert(s[0] * (h * t) == (s[0] * h) * t) by (nonlinear_arith);
    }
}

/// Splitting a shape at an axis splits its element count into
/// `outer * (axis length * block)`.
pub proof fn lemma_dims_prod_split(s: Seq<usize>, ax: int)
    requires
        0 <= ax < s.len(),
    ensures
        dims_prod(s) == outer_of(s, ax) * (s[ax] * block_of(s, ax)),
{
    reveal_with_fuel(dims_prod, 3);
    lemma_dims_prod_concat(s, ax);
    lemma_dims_prod_concat(s.skip(ax), 1);
    assert(s.skip(ax).take(1) =~= seq![s[ax]]);
    assert(s.skip(ax).skip(1) =~= s.skip(ax + 1));
    assert(seq![s[ax]].drop_first() =~= Seq::<usize>::empty());
    assert(dims_prod(seq![s[ax]]) == s[ax] * 1);
}

/// A nonempty range of grid points means a positive element count.
pub proof fn lemma_pos_product(outer: int, alen: int, blk: int)
    by (nonlinear_arith)
    requires
        outer >= 1,
        alen >= 1,
        blk >= 1,
    ensures
        outer * (alen * blk) >= 1,
{
}

/// The flat offset of an in-range grid point is in range.
pub proof fn lemma_grid_bound(pre: int, i: int, q: int, outer: int, alen: int, blk: int)
    by (nonlinear_arith)
    requires
        0 <= pre < outer,
        0 <= i < alen,
        0 <= q < blk,
    ensures
        0 <= pre * (alen * blk) + i * blk + q,
        pre * (alen * blk) + i * blk + q < outer * (alen * blk),
{
}

/// Grid points in lexicographic order have increasing flat offsets.
pub proof fn lemma_grid_lex(
    p0: int,
    i0: int,
    q0: int,
    p1: int,
    i1: int,
    q1: int,
    alen: int,
    blk: int,
)
    by (nonlinear_arith)
    requires
        0 <= p0,
        0 <= i0 < alen,
        0 <= q0 < blk,
        0 <= p1,
        0 <= i1 < alen,
        0 <= q1 < blk,
        p0 < p1 || (p0 == p1 && i0 < i1) || (p0 == p1 && i0 == i1 && q0 < q1),
    ensures
        p0 * (alen * blk) + i0 * blk + q0 < p1 * (alen * blk) + i1 * blk + q1,
{
}

/// Every contiguous sub-product of a positive element count lies between one
/// and the whole count.
pub proof fn lemma_sub_prod_bound(s: Seq<usize>, lo: int, hi: int)
    requires
        0 <= lo <= hi <= s.len(),
        dims_prod(s) > 0,
    ensures
        1 <= dims_prod(s.subrange(lo, hi)),
        dims_prod(s.subrange(lo, hi)) <= dims_prod(s),
{
    lemma_dims_prod_concat(s, lo);
    lemma_dims_prod_concat(s.skip(lo), hi - lo);
    assert(s.skip(lo).take(hi - lo) =~= s.subrange(lo, hi));
    let a = dims_prod(s.take(lo));
    let b = dims_prod(s.subrange(lo, hi));
    let c = dims_prod(s.skip(lo).skip(hi - lo));
    lemma_dims_prod_nonneg(s.take(lo));
    lemma_dims_prod_nonneg(s.subrange(lo, hi));
    lemma_dims_prod_nonneg(s.skip(lo).skip(hi - lo));
    assert(1 <= b && b <= a * (b * c)) by (nonlinear_arith)
        requires
            a >= 0,
            b >= 0,
            c >= 0,
            a * (b * c) > 0,
    ;
}

/// The element count of a shape, or `None` when it exceeds the machine range.
pub fn checked_dims_prod(shape: &Vec<usize>) -> (r: Option<usize>)
    ensures
        r is Some ==> r.unwrap() as int == dims_prod(shape@),
        r is None ==> dims_prod(shape@) > usize::MAX as int || dims_prod(shape@) == 0,
{
    let mut acc: usize = 1;
    let mut i: usize = 0;
    proof {
        assert(shape@.take(0) =~= Seq::<usize>::empty());
    }
    while i < shape.len()
        invariant
            0 <= i <= shape@.len(),
            acc as int == dims_prod(shape@.take(i as int)),
        decreases shape@.len() - i,
    {
        let v = shape[i];
        proof {
            assert(acc as int * v as int <= u128::MAX as int) by (nonlinear_arith)
                requires
                    0 <= acc as int <= 0xFFFF_FFFF_FFFF_FFFFu64 as int,
                    0 <= v as int <= 0xFFFF_FFFF_FFFF_FFFFu64 as int,
                    u128::MAX as int == 0xFFFF_FFFF_FFFF_FFFF_FFFF_FFFF_FFFF_FFFFu128 as int,
            ;
        }
        let wide = (acc as u128) * (v as u128);
        proof {
            assert(shape@.take(i + 1) =~= shape@.take(i as int).push(shape@[i as int]));
            lemma_dims_prod_snoc(shape@.take(i as int), shape@[i as int]);
        }
        if wide > usize::MAX as u128 {
            proof {
                lemma_dims_prod_concat(shape@, i + 1);
                lemma_dims_prod_nonneg(shape@.skip(i + 1));
                lemma_dims_prod_nonneg(shape@.take(i + 1));
                let hd = dims_prod(shape@.take(i + 1));
                let tl = dims_prod(shape@.skip(i + 1));
                assert(hd * tl > usize::MAX as int || hd * tl == 0) by (nonlinear_arith)
                    requires
                        hd > usize::MAX as int,
                        tl >= 0,
                ;
            }
            return None;
        }
        acc = wide as usize;
        i = i + 1;
    }
    proof {
        assert(shape@.take(shape@.len() as int) =~= shape@);
    }
    Some(acc)
}

/// The product of the dimensions of `shape` from `lo` (inclusive) to `hi`
/// (exclusive), computed for shapes whose whole element count is in range.
pub fn range_prod(shape: &Vec<usize>, lo: usize, hi: usize) -> (r: usize)
    requires
        lo <= hi <= shape@.len(),
        0 < dims_prod(shape@) <= usize::MAX as int,
    ensures
        r as int == dims_prod(shape@.subrange(lo as int, hi as int)),
{
    let mut acc: usize = 1;
    let mut k = lo;
    proof {
        assert(shape@.subrange(lo as int, lo as int) =~= Seq::<usize>::empty());
    }
    while k < hi
        invariant
            lo <= k <= hi <= shape@.len(),
            0 < dims_prod(shape@) <= usize::MAX as int,
            acc as int == dims_prod(shape@.subrange(lo as int, k as int)),
        decreases hi - k,
    {
        proof {
            assert(shape@.subrange(lo as int, k + 1) =~= shape@.subrange(lo as int, k as int).push(
                shape@[k as int],
            ));
            lemma_dims_prod_snoc(shape@.subrange(lo as int, k as int), shape@[k as int]);
            lemma_sub_prod_bound(shape@, lo as int, k + 1);
        }
        acc = acc * shape[k];
        k = k + 1;
    }
    acc
}

impl RatArray {
    /// Builds an array after checking that the data length matches the shape
    /// and every element is well formed.
    pub fn new(shape: Vec<usize>, data: Vec<Rat>) -> (r: Option<RatArray>)
        ensures
            r is Some ==> arr_wf(r.unwrap()) && r.unwrap().shape@ == shape@ && r.unwrap().data@
                == data@,
            r is Some <==> shape@.len() >= 1 && data@.len() == dims_prod(shape@) && seq_wf(data@),
    {
        if shape.len() == 0 {
            return None;
        }
        let total = match checked_dims_prod(&shape) {
            Some(t) => t,
            None => {
                if data.len() == 0 {
                    proof {
                        lemma_dims_prod_nonneg(shape@);
                    }
                    if dims_prod_is_zero(&shape) {
                        return Some(RatArray { shape, data });
                    }
                }
                return None;
            },
        };
        if data.len() != total {
            return None;
        }
        let mut i: usize = 0;
        while i < data.len()
            invariant
                0 <= i <= data@.len(),
                forall|j: int| 0 <= j < i ==> rat_wf(#[trigger] data@[j]),
            decreases data@.len() - i,
        {
            if !data[i].check_wf() {
                return None;
            }
            i = i + 1;
        }
        Some(RatArray { shape, data })
    }

    /// The number of axes.
    pub fn ndim(&self) -> (r: usize)
        ensures
            r == self.shape@.len(),
    {
        self.shape.len()
    }

    /// The element at a flat row-major offset.
    pub fn get(&self, i: usize) -> (r: Rat)
        requires
            i < self.data@.len(),
        ensures
            r == self.data@[i as int],
    {
        self.data[i]
    }
}

/// Whether some dimension is zero (so the element count is zero).
fn dims_prod_is_zero(shape: &Vec<usize>) -> (r: bool)
    ensures
        r == (dims_prod(shape@) == 0),
{
    let mut i: usize = 0;
    proof {
        assert(shape@.take(0) =~= Seq::<usize>::empty());
    }
    while i < shape.len()
        invariant
            0 <= i <= shape@.len(),
            dims_prod(shape@.take(i as int)) > 0,
        decreases shape@.len() - i,
    {
        proof {
            assert(shape@.take(i + 1) =~= shape@.take(i as int).push(shape@[i as int]));
            lemma_dims_prod_snoc(shape@.take(i as int), shape@[i as int]);
        }
        if shape[i] == 0 {
            proof {
                lemma_dims_prod_concat(shape@, i + 1);
                lemma_dims_prod_nonneg(shape@.skip(i + 1));
            }
            return true;
        }
        proof {
            let hd = dims_prod(shape@.take(i as int));
            assert(hd * shape@[i as int] > 0) by (nonlinear_arith)
                requires
                    hd > 0,
                    shape@[i as int] >= 1,
            ;
        }
        i = i + 1;
    }
    proof {
        assert(shape@.take(shape@.len() as int) =~= shape@);
    }
    false
}

/// The shape of a difference along `ax`: that axis shrinks by one.
pub open spec fn diff_shape(s: Seq<usize>, ax: int) -> Seq<usize> {
    s.update(ax, (if s[ax] == 0 {
        0usize
    } else {
        (s[ax] - 1) as usize
    }))
}

/// The elementwise statement of `diff`: every output entry is the difference
/// of the two input neighbours it straddles along the axis.
pub open spec fn diff_post(a: RatArray, out: RatArray, ax: int) -> bool {
    let alen = a.shape@[ax] as int;
    let blk = block_of(a.shape@, ax);
    &&& out.shape@ == diff_shape(a.shape@, ax)
    &&& forall|pre: int, i: int, q: int|
        0 <= pre < outer_of(a.shape@, ax) && 0 <= i < alen - 1 && 0 <= q < blk ==> q_eq(
            (#[trigger] out.data@[pre * ((alen - 1) * blk) + i * blk + q])@,
            q_sub(a.data@[pre * (alen * blk) + (i + 1) * blk + q]@, a.data@[pre * (alen * blk) + i
                * blk + q]@),
        )
}

/// Every exact adjacent difference along `ax` fits the stored range as
/// written, so `diff` is owed success.
pub open spec fn diff_fits(a: RatArray, ax: int) -> bool {
    let alen = a.shape@[ax] as int;
    let blk = block_of(a.shape@, ax);
    forall|pre: int, i: int, q: int|
        0 <= pre < outer_of(a.shape@, ax) && 0 <= i < alen - 1 && 0 <= q < blk
            ==> #[trigger] q_fits(
            q_sub(
                a.data@[pre * (alen * blk) + (i + 1) * blk + q]@,
                a.data@[pre * (alen * blk) + i * blk + q]@,
            ),
        )
}

/// Adjacent differences along `axis` (the last axis when `None`): the axis
/// shrinks by one, every other axis is unchanged, and each element is the
/// difference of the two neighbours it straddles. `None` when the axis is out
/// of range or a difference leaves the representable range.
pub fn diff(a: &RatArray, axis: Option<usize>) -> (r: Option<RatArray>)
    requires
        arr_wf(*a),
    ensures
        r is Some ==> arr_wf(r.unwrap()),
        r is Some ==> {
            let ax = if axis is Some {
                axis.unwrap() as int
            } else {
                a.shape@.len() - 1
            };
            0 <= ax < a.shape@.len() && diff_post(*a, r.unwrap(), ax)
        },
        axis is Some && axis.unwrap() >= a.shape@.len() ==> r is None,
        ({
            let ax = if axis is Some {
                axis.unwrap() as int
            } else {
                a.shape@.len() - 1
            };
            &&& 0 <= ax < a.shape@.len()
            &&& (a.shape@[ax] <= 1 || a.data@.len() == 0 || diff_fits(*a, ax))
        }) ==> r is Some,
        r is None ==> ({
            let ax = if axis is Some {
                axis.unwrap() as int
            } else {
                a.shape@.len() - 1
            };
            !(0 <= ax < a.shape@.len()) || !diff_fits(*a, ax)
        }),
{
    let ax = match axis {
        Some(v) => {
            if v >= a.shape.len() {
                return None;
            }
            v
        },
        None => a.shape.len() - 1,
    };
    let alen = a.shape[ax];
    let am1: usize = if alen == 0 {
        0
    } else {
        alen - 1
    };
    // the output shape: the chosen axis shrinks by one
    let mut nshape: Vec<usize> = Vec::new();
    let mut k: usize = 0;
    while k < a.shape.len()
        invariant
            0 <= k <= a.shape@.len(),
            ax < a.shape@.len(),
            am1 == (if a.shape@[ax as int] == 0 {
                0usize
            } else {
                (a.shape@[ax as int] - 1) as usize
            }),
            nshape@.len() == k,
            forall|j: int| 0 <= j < k ==> nshape@[j] == diff_shape(a.shape@, ax as int)[j],
        decreases a.shape@.len() - k,
    {
        if k == ax {
            nshape.push(am1);
        } else {
            nshape.push(a.shape[k]);
        }
        k = k + 1;
    }
    proof {
        assert(nshape@ =~= diff_shape(a.shape@, ax as int));
        lemma_dims_prod_split(a.shape@, ax as int);
        lemma_dims_prod_split(nshape@, ax as int);
        assert(nshape@.take(ax as int) =~= a.shape@.take(ax as int));
        assert(nshape@.skip(ax as int + 1) =~= a.shape@.skip(ax as int + 1));
        lemma_dims_prod_nonneg(a.shape@.take(ax as int));
        lemma_dims_prod_nonneg(a.shape@.skip(ax as int + 1));
    }
    let ghost outer_g = outer_of(a.shape@, ax as int);
    let ghost blk_g = block_of(a.shape@, ax as int);
    if alen <= 1 || a.data.len() == 0 {
        let out = RatArray { shape: nshape, data: Vec::new() };
        proof {
            // the output is empty: some factor of its element count is zero
            if alen <= 1 {
                assert(outer_g * (am1 * blk_g) == 0) by (nonlinear_arith)
                    requires
                        am1 == 0,
                ;
            } else {
                assert(outer_g == 0 || blk_g == 0) by (nonlinear_arith)
                    requires
                        outer_g * (a.shape@[ax as int] * blk_g) == 0,
                        outer_g >= 0,
                        blk_g >= 0,
                        a.shape@[ax as int] >= 2,
                ;
                assert(outer_g * (am1 * blk_g) == 0) by (nonlinear_arith)
                    requires
                        outer_g == 0 || blk_g == 0,
                ;
            }
            // and no grid point exists, so the elementwise claim is vacuous
            assert(outer_g == 0 || blk_g == 0 || alen as int - 1 <= 0);
        }
        return Some(out);
    }
    // alen >= 2 and the array is nonempty
    let total = a.data.len();
    let outer = range_prod(&a.shape, 0, ax);
    let blk = range_prod(&a.shape, ax + 1, a.shape.len());
    proof {
        assert(a.shape@.subrange(0, ax as int) =~= a.shape@.take(ax as int));
        assert(a.shape@.subrange(ax as int + 1, a.shape@.len() as int) =~= a.shape@.skip(
            ax as int + 1,
        ));
        assert(outer_g >= 1 && blk_g >= 1) by (nonlinear_arith)
            requires
                outer_g >= 0,
                blk_g >= 0,
                outer_g * (a.shape@[ax as int] * blk_g) > 0,
        ;
    }
    let mut out: Vec<Rat> = Vec::new();
    let mut pre: usize = 0;
    let mut base: usize = 0;
    while pre < outer
        invariant
            arr_wf(*a),
            0 <= pre <= outer,
            ax < a.shape@.len(),
            alen == a.shape@[ax as int],
            alen >= 2,
            am1 == alen - 1,
            outer == outer_g,
            blk == blk_g,
            outer_g == outer_of(a.shape@, ax as int),
            blk_g == block_of(a.shape@, ax as int),
            ax as int == (if axis is Some {
                axis.unwrap() as int
            } else {
                a.shape@.len() - 1
            }),
            outer >= 1,
            blk >= 1,
            total == a.data@.len(),
            total as int == outer_g * (alen as int * blk_g),
            base as int == pre * (alen as int * blk_g),
            out@.len() == pre * (am1 as int * blk_g),
            seq_wf(out@),
            forall|p2: int, i2: int, q2: int|
                0 <= p2 < pre && 0 <= i2 < alen - 1 && 0 <= q2 < blk_g ==> q_eq(
                    (#[trigger] out@[p2 * ((alen - 1) * blk_g) + i2 * blk_g + q2])@,
                    q_sub(a.data@[p2 * (alen as int * blk_g) + (i2 + 1) * blk_g + q2]@, a.data@[p2
                        * (alen as int * blk_g) + i2 * blk_g + q2]@),
                ),
        decreases outer - pre,
    {
        let mut i: usize = 0;
        let mut ibase: usize = base;
        while i < am1
            invariant
                arr_wf(*a),
                0 <= pre < outer,
                0 <= i <= am1,
                ax < a.shape@.len(),
                alen == a.shape@[ax as int],
                alen >= 2,
                am1 == alen - 1,
                outer == outer_g,
                blk == blk_g,
                outer_g == outer_of(a.shape@, ax as int),
                blk_g == block_of(a.shape@, ax as int),
                ax as int == (if axis is Some {
                    axis.unwrap() as int
                } else {
                    a.shape@.len() - 1
                }),
                outer >= 1,
                blk >= 1,
                total == a.data@.len(),
                total as int == outer_g * (alen as int * blk_g),
                base as int == pre * (alen as int * blk_g),
                ibase as int == base + i * blk_g,
                out@.len() == pre * (am1 as int * blk_g) + i * blk_g,
                seq_wf(out@),
                forall|p2: int, i2: int, q2: int|
                    0 <= p2 < pre && 0 <= i2 < alen - 1 && 0 <= q2 < blk_g ==> q_eq(
                        (#[trigger] out@[p2 * ((alen - 1) * blk_g) + i2 * blk_g + q2])@,
                        q_sub(
                            a.data@[p2 * (alen as int * blk_g) + (i2 + 1) * blk_g + q2]@,
                            a.data@[p2 * (alen as int * blk_g) + i2 * blk_g + q2]@,
                        ),
                    ),
                forall|i2: int, q2: int|
                    0 <= i2 < i && 0 <= q2 < blk_g ==> q_eq(
                        (#[trigger] out@[pre * ((alen - 1) * blk_g) + i2 * blk_g + q2])@,
                        q_sub(
                            a.data@[pre * (alen as int * blk_g) + (i2 + 1) * blk_g + q2]@,
                            a.data@[pre * (alen as int * blk_g) + i2 * blk_g + q2]@,
                        ),
                    ),
            decreases am1 - i,
        {
            let mut q: usize = 0;
            while q < blk
                invariant
                    arr_wf(*a),
                    0 <= pre < outer,
                    0 <= i < am1,
                    0 <= q <= blk,
                    ax < a.shape@.len(),
                    alen == a.shape@[ax as int],
                    alen >= 2,
                    am1 == alen - 1,
                    outer == outer_g,
                    blk == blk_g,
                    outer_g == outer_of(a.shape@, ax as int),
                    blk_g == block_of(a.shape@, ax as int),
                    ax as int == (if axis is Some {
                        axis.unwrap() as int
                    } else {
                        a.shape@.len() - 1
                    }),
                    outer >= 1,
                    blk >= 1,
                    total == a.data@.len(),
                    total as int == outer_g * (alen as int * blk_g),
                    base as int == pre * (alen as int * blk_g),
                    ibase as int == base + i * blk_g,
                    out@.len() == pre * (am1 as int * blk_g) + i * blk_g + q,
                    seq_wf(out@),
                    forall|p2: int, i2: int, q2: int|
                        0 <= p2 < pre && 0 <= i2 < alen - 1 && 0 <= q2 < blk_g ==> q_eq(
                            (#[trigger] out@[p2 * ((alen - 1) * blk_g) + i2 * blk_g + q2])@,
                            q_sub(
                                a.data@[p2 * (alen as int * blk_g) + (i2 + 1) * blk_g + q2]@,
                                a.data@[p2 * (alen as int * blk_g) + i2 * blk_g + q2]@,
                            ),
                        ),
                    forall|i2: int, q2: int|
                        (0 <= i2 < i && 0 <= q2 < blk_g) || (i2 == i && 0 <= q2 < q) ==> q_eq(
                            (#[trigger] out@[pre * ((alen - 1) * blk_g) + i2 * blk_g + q2])@,
                            q_sub(
                                a.data@[pre * (alen as int * blk_g) + (i2 + 1) * blk_g + q2]@,
                                a.data@[pre * (alen as int * blk_g) + i2 * blk_g + q2]@,
                            ),
                        ),
                decreases blk - q,
            {
                proof {
                    lemma_grid_bound(pre as int, i as int, q as int, outer as int, alen as int, blk
                        as int);
                    lemma_grid_bound(
                        pre as int,
                        i + 1,
                        q as int,
                        outer as int,
                        alen as int,
                        blk as int,
                    );
                    assert((i + 1) * blk_g == i * blk_g + blk_g) by (nonlinear_arith);
                    lemma_grid_bound(pre as int, i as int, q as int, outer as int, am1 as int, blk
                        as int);
                    assert(pre * (am1 as int * blk_g) + i * blk_g + q <= pre * ((alen - 1) * blk_g)
                        + i * blk_g + q);
                }
                let lo = ibase + q;
                let hi = ibase + blk + q;
                let d = match a.data[hi].sub(a.data[lo]) {
                    Some(d) => d,
                    None => {
                        proof {
                            assert(!q_fits(
                                q_sub(
                                    a.data@[pre * (a.shape@[ax as int] * blk_g) + (i + 1) * blk_g
                                        + q]@,
                                    a.data@[pre * (a.shape@[ax as int] * blk_g) + i * blk_g + q]@,
                                ),
                            ));
                            assert(!diff_fits(*a, ax as int));
                        }
                        return None;
                    },
                };
                out.push(d);
                proof {
                    assert forall|i2: int, q2: int|
                        (0 <= i2 < i && 0 <= q2 < blk_g) || (i2 == i as int && 0 <= q2 < q
                            + 1) implies q_eq(
                        (#[trigger] out@[pre * ((alen - 1) * blk_g) + i2 * blk_g + q2])@,
                        q_sub(
                            a.data@[pre * (alen as int * blk_g) + (i2 + 1) * blk_g + q2]@,
                            a.data@[pre * (alen as int * blk_g) + i2 * blk_g + q2]@,
                        ),
                    ) by {
                        if i2 == i as int && q2 == q as int {
                        } else {
                            lemma_grid_lex(
                                pre as int,
                                i2,
                                q2,
                                pre as int,
                                i as int,
                                q as int,
                                am1 as int,
                                blk_g,
                            );
                        }
                    }
                    assert forall|p2: int, i2: int, q2: int|
                        0 <= p2 < pre && 0 <= i2 < alen - 1 && 0 <= q2 < blk_g implies q_eq(
                        (#[trigger] out@[p2 * ((alen - 1) * blk_g) + i2 * blk_g + q2])@,
                        q_sub(
                            a.data@[p2 * (alen as int * blk_g) + (i2 + 1) * blk_g + q2]@,
                            a.data@[p2 * (alen as int * blk_g) + i2 * blk_g + q2]@,
                        ),
                    ) by {
                        lemma_grid_lex(
                            p2,
                            i2,
                            q2,
                            pre as int,
                            i as int,
                            q as int,
                            am1 as int,
                            blk_g,
                        );
                    }
                }
                q = q + 1;
            }
            proof {
                assert((i + 1) * blk_g == i * blk_g + blk_g) by (nonlinear_arith);
                lemma_grid_bound(pre as int, i + 1, 0, outer as int, alen as int, blk_g);
            }
            i = i + 1;
            ibase = ibase + blk;
        }
        proof {
            assert((pre + 1) * (alen as int * blk_g) == pre * (alen as int * blk_g) + am1 as int
                * blk_g + blk_g) by (nonlinear_arith)
                requires
                    am1 as int == alen as int - 1,
            ;
            assert((pre + 1) * (alen as int * blk_g) <= outer_g * (alen as int * blk_g))
                by (nonlinear_arith)
                requires
                    pre as int + 1 <= outer_g,
                    alen as int * blk_g >= 0,
            ;
            assert((pre + 1) * (am1 as int * blk_g) == pre * (am1 as int * blk_g) + am1 as int
                * blk_g) by (nonlinear_arith);
            assert(alen as int * blk_g >= 0) by (nonlinear_arith)
                requires
                    alen as int >= 0,
                    blk_g >= 0,
            ;
        }
        pre = pre + 1;
        base = ibase + blk;
    }
    let out_arr = RatArray { shape: nshape, data: out };
    proof {
        assert(out_arr.data@.len() == dims_prod(out_arr.shape@));
    }
    Some(out_arr)
}

} // verus!
