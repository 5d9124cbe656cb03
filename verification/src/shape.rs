//! Row-major layout of tensors: element counts, flat offsets and the
//! multi-index that a flat offset stands for.
use vstd::prelude::*;
use vstd::arithmetic::div_mod::{
    lemma_div_denominator, lemma_fundamental_div_mod_converse, lemma_mod_breakdown,
};
use vstd::arithmetic::mul::lemma_mul_is_commutative;

verus! {

/// Number of elements of a tensor of shape `s`: the product of its dimensions.
pub open spec fn shape_size(s: Seq<usize>) -> nat
    decreases s.len(),
{
    if s.len() == 0 {
        1
    } else {
        (s[0] as nat) * shape_size(s.drop_first())
    }
}

/// Row-major flat offset of multi-index `idx` in a tensor of shape `s`:
/// the sum over every axis `d` of `idx[d]` times the size of the axes after `d`.
/// Entries of `idx` past `s.len()` play no part.
pub open spec fn flat_offset(s: Seq<usize>, idx: Seq<usize>) -> nat
    decreases s.len(),
{
    if s.len() == 0 {
        0
    } else {
        (idx[0] as nat) * shape_size(s.drop_first()) + flat_offset(s.drop_first(), idx.drop_first())
    }
}

/// Every trailing product of `s` (the stride of each axis, and the size itself) fits in a `usize`.
pub open spec fn strides_fit(s: Seq<usize>) -> bool {
    forall|k: int| 0 <= k <= s.len() ==> #[trigger] shape_size(s.skip(k)) <= usize::MAX
}

proof fn lemma_skip_step(s: Seq<usize>, k: int)
    requires
        0 <= k < s.len(),
    ensures
        s.skip(k).drop_first() == s.skip(k + 1),
        s.skip(k)[0] == s[k],
        s.skip(k).len() == s.len() - k,
{
    assert(s.skip(k).drop_first() =~= s.skip(k + 1));
}

/// One more leading axis: size and offset of the suffix from `k` in terms of the suffix from `k + 1`.
proof fn lemma_suffix_step(s: Seq<usize>, idx: Seq<usize>, k: int)
    requires
        0 <= k < s.len(),
        s.len() <= idx.len(),
    ensures
        shape_size(s.skip(k)) == (s[k] as nat) * shape_size(s.skip(k + 1)),
        flat_offset(s.skip(k), idx.skip(k)) == (idx[k] as nat) * shape_size(s.skip(k + 1))
            + flat_offset(s.skip(k + 1), idx.skip(k + 1)),
{
    lemma_skip_step(s, k);
    assert(idx.skip(k).drop_first() =~= idx.skip(k + 1));
}

/// The offset of a suffix never exceeds the offset of the whole index.
proof fn lemma_suffix_offset_le(s: Seq<usize>, idx: Seq<usize>, k: int)
    requires
        0 <= k <= s.len(),
        s.len() <= idx.len(),
    ensures
        flat_offset(s.skip(k), idx.skip(k)) <= flat_offset(s, idx),
    decreases k,
{
    if k > 0 {
        lemma_suffix_offset_le(s, idx, k - 1);
        lemma_suffix_step(s, idx, k - 1);
        assert((idx[k - 1] as nat) * shape_size(s.skip(k)) >= 0) by (nonlinear_arith);
    } else {
        assert(s.skip(0) =~= s);
        assert(idx.skip(0) =~= idx);
    }
}

/// Flat offset of `indices` in a row-major tensor of shape `shape`.
/// Only the first `shape.len()` entries of `indices` are read.
pub fn calc_offset(shape: &[usize], indices: &[usize]) -> (offset: usize)
    requires
        shape@.len() <= indices@.len(),
        strides_fit(shape@),
        flat_offset(shape@, indices@) <= usize::MAX,
    ensures
        offset == flat_offset(shape@, indices@),
{
    let n = shape.len();
    let mut offset: usize = 0;
    let mut stride: usize = 1;
    let mut k: usize = n;
    proof {
        assert(shape@.skip(n as int).len() == 0);
    }
    while k > 0
        invariant
            n == shape@.len(),
            n <= indices@.len(),
            k <= n,
            strides_fit(shape@),
            flat_offset(shape@, indices@) <= usize::MAX,
            offset == flat_offset(shape@.skip(k as int), indices@.skip(k as int)),
            stride == shape_size(shape@.skip(k as int)),
        decreases k,
    {
        k = k - 1;
        proof {
            lemma_suffix_step(shape@, indices@, k as int);
            lemma_suffix_offset_le(shape@, indices@, k as int);
            assert(shape_size(shape@.skip(k as int)) <= usize::MAX);
        }
        offset = offset + indices[k] * stride;
        stride = shape[k] * stride;
    }
    proof {
        assert(shape@.skip(0) =~= shape@);
        assert(indices@.skip(0) =~= indices@);
    }
    offset
}

/// `calc_offset` with its overflow made explicit: the flat offset of `indices`, or `None`
/// where one of the strides or the offset itself does not fit in a `usize`.
pub fn try_calc_offset(shape: &[usize], indices: &[usize]) -> (offset: Option<usize>)
    requires
        shape@.len() <= indices@.len(),
    ensures
        offset is Some <==> (strides_fit(shape@) && flat_offset(shape@, indices@) <= usize::MAX),
        offset matches Some(o) ==> o == flat_offset(shape@, indices@),
{
    let n = shape.len();
    let mut offset: usize = 0;
    let mut stride: usize = 1;
    let mut k: usize = n;
    proof {
        assert(shape@.skip(n as int).len() == 0);
    }
    while k > 0
        invariant
            n == shape@.len(),
            n <= indices@.len(),
            k <= n,
            offset == flat_offset(shape@.skip(k as int), indices@.skip(k as int)),
            stride == shape_size(shape@.skip(k as int)),
            forall|j: int| k <= j <= n ==> #[trigger] shape_size(shape@.skip(j)) <= usize::MAX,
        decreases k,
    {
        k = k - 1;
        proof {
            lemma_suffix_step(shape@, indices@, k as int);
            lemma_suffix_offset_le(shape@, indices@, k as int);
            lemma_suffix_offset_le(shape@, indices@, k as int + 1);
        }
        let term = match indices[k].checked_mul(stride) {
            Some(t) => t,
            None => {
                proof {
                    assert(flat_offset(shape@.skip(k as int), indices@.skip(k as int)) > usize::MAX);
                }
                return None;
            },
        };
        offset = match offset.checked_add(term) {
            Some(o) => o,
            None => {
                return None;
            },
        };
        stride = match shape[k].checked_mul(stride) {
            Some(st) => st,
            None => {
                proof {
                    assert(shape_size(shape@.skip(k as int)) > usize::MAX);
                    assert(!strides_fit(shape@));
                }
                return None;
            },
        };
    }
    proof {
        assert(shape@.skip(0) =~= shape@);
        assert(indices@.skip(0) =~= indices@);
    }
    Some(offset)
}

/// `idx` names an element of a tensor of shape `s`: one entry per axis, each below its dimension.
pub open spec fn in_bounds(s: Seq<usize>, idx: Seq<usize>) -> bool {
    &&& idx.len() == s.len()
    &&& forall|d: int| 0 <= d < s.len() ==> #[trigger] idx[d] < s[d]
}

/// Every dimension of `s` is positive.
pub open spec fn all_dims_positive(s: Seq<usize>) -> bool {
    forall|d: int| 0 <= d < s.len() ==> #[trigger] s[d] > 0
}

/// The multi-index that row-major flat position `f` stands for in a tensor of shape `s`:
/// along axis `k`, the quotient of `f` by the size of the later axes, modulo `s[k]`.
pub open spec fn unravel(s: Seq<usize>, f: nat) -> Seq<usize> {
    Seq::new(s.len(), |k: int| ((f / shape_size(s.skip(k + 1))) % (s[k] as nat)) as usize)
}

/// Every prefix product of `s` fits in a `usize` (the product taken from the left never overflows).
pub open spec fn prefix_fit(s: Seq<usize>) -> bool {
    forall|k: int| 0 <= k <= s.len() ==> #[trigger] shape_size(s.take(k)) <= usize::MAX
}

/// Appending an axis multiplies the size by its dimension.
pub proof fn lemma_size_push(s: Seq<usize>, x: usize)
    ensures
        shape_size(s.push(x)) == shape_size(s) * (x as nat),
    decreases s.len(),
{
    let c = x as nat;
    if s.len() > 0 {
        assert(s.push(x).drop_first() =~= s.drop_first().push(x));
        assert(s.push(x)[0] == s[0]);
        lemma_size_push(s.drop_first(), x);
        let a = s[0] as nat;
        let b = shape_size(s.drop_first());
        assert(a * (b * c) == (a * b) * c) by (nonlinear_arith);
    } else {
        let e = Seq::<usize>::empty();
        assert(s.push(x).drop_first() =~= e);
        assert(s.push(x)[0] == x);
        assert(shape_size(s.push(x)) == c * shape_size(e));
        let one = shape_size(e);
        assert(c * one == c && one * c == c) by (nonlinear_arith)
            requires
                one == 1,
        ;
    }
}

/// A shape has a positive size exactly when all its dimensions are positive.
pub proof fn lemma_size_positive(s: Seq<usize>)
    ensures
        shape_size(s) > 0 <==> all_dims_positive(s),
    decreases s.len(),
{
    if s.len() > 0 {
        lemma_size_positive(s.drop_first());
        let r = shape_size(s.drop_first());
        let d0 = s[0] as nat;
        assert(d0 * r > 0 <==> (d0 > 0 && r > 0)) by (nonlinear_arith);
        if all_dims_positive(s) {
            assert forall|d: int| 0 <= d < s.drop_first().len() implies #[trigger] s.drop_first()[d]
                > 0 by {
                assert(s.drop_first()[d] == s[d + 1]);
            }
        }
        if all_dims_positive(s.drop_first()) && s[0] > 0 {
            assert forall|d: int| 0 <= d < s.len() implies #[trigger] s[d] > 0 by {
                if d > 0 {
                    assert(s[d] == s.drop_first()[d - 1]);
                }
            }
        }
    }
}

/// With every dimension positive, the size of a suffix never exceeds the size of the shape.
proof fn lemma_suffix_size_le(s: Seq<usize>, k: int)
    requires
        0 <= k <= s.len(),
        all_dims_positive(s),
    ensures
        shape_size(s.skip(k)) <= shape_size(s),
    decreases k,
{
    if k > 0 {
        lemma_suffix_size_le(s, k - 1);
        lemma_suffix_step(s, s, k - 1);
        let r = shape_size(s.skip(k));
        assert(s[k - 1] > 0);
        assert((s[k - 1] as nat) * r >= r) by (nonlinear_arith)
            requires
                s[k - 1] > 0,
        ;
    } else {
        assert(s.skip(0) =~= s);
    }
}

/// With every dimension positive and the size in range, all strides fit.
pub proof fn lemma_positive_strides_fit(s: Seq<usize>)
    requires
        all_dims_positive(s),
        shape_size(s) <= usize::MAX,
    ensures
        strides_fit(s),
{
    assert forall|k: int| 0 <= k <= s.len() implies #[trigger] shape_size(s.skip(k))
        <= usize::MAX by {
        lemma_suffix_size_le(s, k);
    }
}

proof fn lemma_in_bounds_tail(s: Seq<usize>, idx: Seq<usize>)
    requires
        s.len() > 0,
        in_bounds(s, idx),
    ensures
        in_bounds(s.drop_first(), idx.drop_first()),
        idx[0] < s[0],
{
    assert(idx[0] < s[0]);
    assert forall|d: int| 0 <= d < s.drop_first().len() implies #[trigger] idx.drop_first()[d]
        < s.drop_first()[d] by {
        assert(idx[d + 1] < s[d + 1]);
    }
}

proof fn lemma_unravel_tail(s: Seq<usize>, f: nat)
    requires
        s.len() > 0,
    ensures
        unravel(s, f).drop_first() == unravel(s.drop_first(), f),
        unravel(s, f)[0] == ((f / shape_size(s.drop_first())) % (s[0] as nat)) as usize,
{
    assert(s.skip(1) =~= s.drop_first());
    assert forall|k: int| 0 <= k < s.len() - 1 implies #[trigger] unravel(s, f).drop_first()[k]
        == unravel(s.drop_first(), f)[k] by {
        assert(s.skip(k + 2) =~= s.drop_first().skip(k + 1));
    }
    assert(unravel(s, f).drop_first() =~= unravel(s.drop_first(), f));
}

/// An in-bounds multi-index lands strictly inside the tensor.
pub proof fn law_flat_offset_in_range(s: Seq<usize>, idx: Seq<usize>)
    requires
        in_bounds(s, idx),
    ensures
        flat_offset(s, idx) < shape_size(s),
    decreases s.len(),
{
    if s.len() > 0 {
        lemma_in_bounds_tail(s, idx);
        law_flat_offset_in_range(s.drop_first(), idx.drop_first());
        let r = shape_size(s.drop_first());
        let o = flat_offset(s.drop_first(), idx.drop_first());
        let i0 = idx[0] as nat;
        let d0 = s[0] as nat;
        assert(i0 * r + o < d0 * r) by (nonlinear_arith)
            requires
                o < r,
                i0 < d0,
        ;
    }
}

/// Two in-bounds multi-indices with the same flat offset are the same index.
pub proof fn lemma_flat_offset_injective(s: Seq<usize>, a: Seq<usize>, b: Seq<usize>)
    requires
        in_bounds(s, a),
        in_bounds(s, b),
        flat_offset(s, a) == flat_offset(s, b),
    ensures
        a == b,
    decreases s.len(),
{
    if s.len() > 0 {
        lemma_in_bounds_tail(s, a);
        lemma_in_bounds_tail(s, b);
        law_flat_offset_in_range(s.drop_first(), a.drop_first());
        law_flat_offset_in_range(s.drop_first(), b.drop_first());
        let r = shape_size(s.drop_first()) as int;
        let oa = flat_offset(s.drop_first(), a.drop_first()) as int;
        let ob = flat_offset(s.drop_first(), b.drop_first()) as int;
        let x = flat_offset(s, a) as int;
        lemma_fundamental_div_mod_converse(x, r, a[0] as int, oa);
        lemma_fundamental_div_mod_converse(x, r, b[0] as int, ob);
        lemma_flat_offset_injective(s.drop_first(), a.drop_first(), b.drop_first());
        assert(a =~= b) by {
            assert forall|d: int| 0 <= d < a.len() implies a[d] == b[d] by {
                if d > 0 {
                    assert(a[d] == a.drop_first()[d - 1]);
                    assert(b[d] == b.drop_first()[d - 1]);
                }
            }
        }
    } else {
        assert(a =~= b);
    }
}

/// With positive dimensions, the unravelled index is in bounds and its offset is `f` modulo the size.
pub proof fn lemma_offset_of_unravel(s: Seq<usize>, f: nat)
    requires
        all_dims_positive(s),
    ensures
        in_bounds(s, unravel(s, f)),
        shape_size(s) > 0,
        flat_offset(s, unravel(s, f)) == f % shape_size(s),
    decreases s.len(),
{
    lemma_size_positive(s);
    if s.len() > 0 {
        let rest = s.drop_first();
        assert(all_dims_positive(rest)) by {
            assert forall|d: int| 0 <= d < rest.len() implies #[trigger] rest[d] > 0 by {
                assert(rest[d] == s[d + 1]);
            }
        }
        lemma_offset_of_unravel(rest, f);
        lemma_unravel_tail(s, f);
        let u = unravel(s, f);
        let r = shape_size(rest) as int;
        let d0 = s[0] as int;
        lemma_mod_breakdown(f as int, r, d0);
        lemma_mul_is_commutative(r, d0);
        assert(u[0] as int == (f as int / r) % d0);
        assert forall|d: int| 0 <= d < s.len() implies #[trigger] u[d] < s[d] by {
            if d > 0 {
                assert(u[d] == u.drop_first()[d - 1]);
                assert(s[d] == rest[d - 1]);
            }
        }
    } else {
        assert(f % 1 == 0);
    }
}

/// Unravelling a flat position below the size and taking its offset gives the position back.
pub proof fn law_unravel_round_trip(s: Seq<usize>, f: nat)
    requires
        f < shape_size(s),
    ensures
        in_bounds(s, unravel(s, f)),
        flat_offset(s, unravel(s, f)) == f,
{
    lemma_size_positive(s);
    lemma_offset_of_unravel(s, f);
    vstd::arithmetic::div_mod::lemma_small_mod(f, shape_size(s));
}

/// Taking the offset of an in-bounds multi-index and unravelling it gives the index back.
pub proof fn law_offset_round_trip(s: Seq<usize>, idx: Seq<usize>)
    requires
        in_bounds(s, idx),
    ensures
        unravel(s, flat_offset(s, idx)) == idx,
{
    law_flat_offset_in_range(s, idx);
    law_unravel_round_trip(s, flat_offset(s, idx));
    lemma_flat_offset_injective(s, unravel(s, flat_offset(s, idx)), idx);
}

/// The multi-index that row-major flat position `flat` stands for in a tensor of shape `shape`.
pub fn unravel_index(shape: &[usize], flat: usize) -> (indices: Vec<usize>)
    requires
        all_dims_positive(shape@),
    ensures
        indices@ == unravel(shape@, flat as nat),
{
    let n = shape.len();
    let mut indices: Vec<usize> = vec![0; n];
    let mut remainder: usize = flat;
    let mut k: usize = n;
    proof {
        assert(shape@.skip(n as int) =~= Seq::<usize>::empty());
        assert(shape_size(shape@.skip(n as int)) == 1);
    }
    while k > 0
        invariant
            n == shape@.len(),
            k <= n,
            indices@.len() == n,
            all_dims_positive(shape@),
            remainder == (flat as nat) / shape_size(shape@.skip(k as int)),
            forall|j: int| k <= j < n ==> #[trigger] indices@[j] == unravel(shape@, flat as nat)[j],
        decreases k,
    {
        k = k - 1;
        let dim = shape[k];
        proof {
            lemma_skip_step(shape@, k as int);
            assert(shape@.skip(k + 1) =~= shape@.skip(k as int).drop_first());
            assert(shape_size(shape@.skip(k as int)) == (dim as nat) * shape_size(shape@.skip(k + 1)));
            assert(dim > 0);
            lemma_size_positive(shape@.skip(k + 1));
            assert(all_dims_positive(shape@.skip(k + 1))) by {
                assert forall|d: int| 0 <= d < shape@.skip(k + 1).len() implies #[trigger] shape@.skip(k + 1)[d] > 0 by {
                    assert(shape@.skip(k + 1)[d] == shape@[k + 1 + d]);
                }
            }
            let r = shape_size(shape@.skip(k + 1)) as int;
            lemma_div_denominator(flat as int, r, dim as int);
            lemma_mul_is_commutative(r, dim as int);
        }
        indices.set(k, remainder % dim);
        remainder = remainder / dim;
    }
    proof {
        assert(indices@ =~= unravel(shape@, flat as nat));
    }
    indices
}

/// Checked element count of `shape`: the product of its dimensions taken from the left,
/// or `None` where a partial product overflows a `usize`.
pub fn shape_numel(shape: &[usize]) -> (n: Option<usize>)
    ensures
        n is Some <==> prefix_fit(shape@),
        n matches Some(v) ==> v == shape_size(shape@),
{
    let mut acc: usize = 1;
    let mut k: usize = 0;
    proof {
        assert(shape@.take(0) =~= Seq::<usize>::empty());
    }
    while k < shape.len()
        invariant
            k <= shape@.len(),
            acc == shape_size(shape@.take(k as int)),
            forall|j: int| 0 <= j <= k ==> #[trigger] shape_size(shape@.take(j)) <= usize::MAX,
        decreases shape@.len() - k,
    {
        proof {
            assert(shape@.take(k + 1) =~= shape@.take(k as int).push(shape@[k as int]));
            lemma_size_push(shape@.take(k as int), shape@[k as int]);
        }
        match acc.checked_mul(shape[k]) {
            Some(v) => {
                acc = v;
                k = k + 1;
            },
            None => {
                return None;
            },
        }
    }
    proof {
        assert(shape@.take(k as int) =~= shape@);
    }
    Some(acc)
}

} // verus!
