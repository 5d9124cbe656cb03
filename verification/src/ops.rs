//! Broadcasting and the element-wise and matrix operations built on it.
use vstd::prelude::*;
use crate::shape::{
    all_dims_positive, flat_offset, in_bounds, law_flat_offset_in_range, law_unravel_round_trip,
    lemma_offset_of_unravel, lemma_positive_strides_fit, lemma_size_positive, prefix_fit, shape_numel,
    shape_size, unravel, unravel_index,
};
use crate::tensor::{is_default, Tensor, TensorView};

verus! {

/// Dimension of `s` at position `r` counted from the last axis; axes past the front count as 1.
pub open spec fn dim_from_right(s: Seq<usize>, r: int) -> usize {
    if r < s.len() {
        s[s.len() - 1 - r]
    } else {
        1
    }
}

/// Number of axes of the broadcast of `s1` and `s2`: the larger of their ranks.
pub open spec fn broadcast_rank(s1: Seq<usize>, s2: Seq<usize>) -> nat {
    if s1.len() >= s2.len() {
        s1.len()
    } else {
        s2.len()
    }
}

/// Two aligned dimensions can be broadcast together: they agree, or one of them is 1.
pub open spec fn axes_compatible(a: usize, b: usize) -> bool {
    a == b || a == 1 || b == 1
}

/// The dimension two compatible aligned axes broadcast to: a dimension of 1 stretches to
/// the other one (an empty axis included), otherwise the two agree.
pub open spec fn broadcast_dim(a: usize, b: usize) -> usize {
    if a == 1 {
        b
    } else {
        a
    }
}

/// Shapes `s1` and `s2`, aligned at their last axes, are compatible on every axis.
pub open spec fn broadcastable(s1: Seq<usize>, s2: Seq<usize>) -> bool {
    forall|r: int|
        0 <= r < broadcast_rank(s1, s2) ==> #[trigger] axes_compatible(
            dim_from_right(s1, r),
            dim_from_right(s2, r),
        )
}

/// The broadcast shape: on each axis, aligned from the last, the dimension the pair broadcasts to.
pub open spec fn broadcast_shape(s1: Seq<usize>, s2: Seq<usize>) -> Seq<usize> {
    let n = broadcast_rank(s1, s2) as int;
    Seq::new(
        n as nat,
        |j: int| broadcast_dim(dim_from_right(s1, n - 1 - j), dim_from_right(s2, n - 1 - j)),
    )
}

/// The index into an input of shape `in_shape` that output index `out_idx` reads under
/// broadcasting: axes aligned from the last, a dimension of 1 always read at 0.
pub open spec fn broadcast_source(out_idx: Seq<usize>, in_shape: Seq<usize>) -> Seq<usize> {
    let off = if out_idx.len() >= in_shape.len() {
        out_idx.len() - in_shape.len()
    } else {
        0
    };
    Seq::new(
        in_shape.len(),
        |i: int|
            if i + off < out_idx.len() {
                if in_shape[i] == 1 {
                    0
                } else {
                    out_idx[i + off]
                }
            } else {
                0
            },
    )
}

/// Flat position in an input of shape `in_shape` that flat position `i` of an output of
/// shape `out_shape` reads under broadcasting.
pub open spec fn broadcast_offset(in_shape: Seq<usize>, out_shape: Seq<usize>, i: nat) -> nat {
    flat_offset(in_shape, broadcast_source(unravel(out_shape, i), in_shape))
}

/// The shape that broadcasting `shape1` against `shape2` gives, or `None` where some aligned
/// pair of dimensions differ and neither is 1.
pub fn broadcast_shapes(shape1: &[usize], shape2: &[usize]) -> (result: Option<Vec<usize>>)
    ensures
        result is Some <==> broadcastable(shape1@, shape2@),
        result matches Some(s) ==> s@ == broadcast_shape(shape1@, shape2@),
{
    let l1 = shape1.len();
    let l2 = shape2.len();
    let n = if l1 >= l2 { l1 } else { l2 };
    let mut result: Vec<usize> = Vec::new();
    let mut j: usize = 0;
    while j < n
        invariant
            l1 == shape1@.len(),
            l2 == shape2@.len(),
            n == broadcast_rank(shape1@, shape2@),
            j <= n,
            result@ == broadcast_shape(shape1@, shape2@).take(j as int),
            forall|r: int|
                n - j <= r < n ==> #[trigger] axes_compatible(
                    dim_from_right(shape1@, r),
                    dim_from_right(shape2@, r),
                ),
        decreases n - j,
    {
        let r = n - 1 - j;
        let dim1 = if r < l1 { shape1[l1 - 1 - r] } else { 1 };
        let dim2 = if r < l2 { shape2[l2 - 1 - r] } else { 1 };
        if dim1 == dim2 || dim1 == 1 || dim2 == 1 {
            result.push(if dim1 == 1 { dim2 } else { dim1 });
            j += 1;
            proof {
                assert(result@ =~= broadcast_shape(shape1@, shape2@).take(j as int));
            }
        } else {
            proof {
                assert(!axes_compatible(dim_from_right(shape1@, r as int), dim_from_right(shape2@, r as int)));
            }
            return None;
        }
    }
    proof {
        assert(result@ =~= broadcast_shape(shape1@, shape2@));
    }
    Some(result)
}

/// The index into an input of shape `input_shape` that the output index `output_indices`
/// reads under broadcasting.
pub fn map_indices_for_broadcast(output_indices: &[usize], input_shape: &[usize]) -> (input_indices: Vec<usize>)
    ensures
        input_indices@ == broadcast_source(output_indices@, input_shape@),
{
    let out_len = output_indices.len();
    let in_len = input_shape.len();
    let out_offset = out_len.saturating_sub(in_len);
    let mut input_indices: Vec<usize> = Vec::new();
    let mut i: usize = 0;
    while i < in_len
        invariant
            in_len == input_shape@.len(),
            out_len == output_indices@.len(),
            out_offset == (if out_len >= in_len { out_len - in_len } else { 0 }),
            i <= in_len,
            input_indices@ == broadcast_source(output_indices@, input_shape@).take(i as int),
        decreases in_len - i,
    {
        let v = if i < out_len - out_offset {
            if input_shape[i] == 1 {
                0
            } else {
                output_indices[i + out_offset]
            }
        } else {
            0
        };
        input_indices.push(v);
        i += 1;
        proof {
            assert(input_indices@ =~= broadcast_source(output_indices@, input_shape@).take(i as int));
        }
    }
    proof {
        assert(input_indices@ =~= broadcast_source(output_indices@, input_shape@));
    }
    input_indices
}

/// Broadcasting is symmetric: the order of the operands changes neither whether two shapes
/// broadcast nor, where they do, the shape they give.
pub proof fn law_broadcast_commutative(s1: Seq<usize>, s2: Seq<usize>)
    ensures
        broadcastable(s1, s2) == broadcastable(s2, s1),
        broadcastable(s1, s2) ==> broadcast_shape(s1, s2) == broadcast_shape(s2, s1),
{
    assert(broadcast_rank(s1, s2) == broadcast_rank(s2, s1));
    if broadcastable(s1, s2) {
        assert forall|r: int| 0 <= r < broadcast_rank(s2, s1) implies #[trigger] axes_compatible(
            dim_from_right(s2, r),
            dim_from_right(s1, r),
        ) by {
            assert(axes_compatible(dim_from_right(s1, r), dim_from_right(s2, r)));
        }
    }
    if broadcastable(s2, s1) {
        assert forall|r: int| 0 <= r < broadcast_rank(s1, s2) implies #[trigger] axes_compatible(
            dim_from_right(s1, r),
            dim_from_right(s2, r),
        ) by {
            assert(axes_compatible(dim_from_right(s2, r), dim_from_right(s1, r)));
        }
    }
    if broadcastable(s1, s2) {
        let n = broadcast_rank(s1, s2) as int;
        assert forall|j: int| 0 <= j < n implies #[trigger] broadcast_shape(s1, s2)[j]
            == broadcast_shape(s2, s1)[j] by {
            assert(axes_compatible(dim_from_right(s1, n - 1 - j), dim_from_right(s2, n - 1 - j)));
        }
        assert(broadcast_shape(s1, s2) =~= broadcast_shape(s2, s1));
    }
}

/// A shape broadcasts with itself, giving itself.
pub proof fn law_broadcast_self(s: Seq<usize>)
    ensures
        broadcastable(s, s),
        broadcast_shape(s, s) == s,
{
    assert forall|r: int| 0 <= r < broadcast_rank(s, s) implies #[trigger] axes_compatible(
        dim_from_right(s, r),
        dim_from_right(s, r),
    ) by {}
    assert forall|j: int| 0 <= j < s.len() implies #[trigger] broadcast_shape(s, s)[j] == s[j] by {
        let n = s.len() as int;
        assert(dim_from_right(s, n - 1 - j) == s[j]);
    }
    assert(broadcast_shape(s, s) =~= s);
}

/// A scalar (shape of no axes) broadcasts with any shape, giving that shape.
pub proof fn law_broadcast_scalar(s: Seq<usize>)
    ensures
        broadcastable(Seq::<usize>::empty(), s),
        broadcast_shape(Seq::<usize>::empty(), s) == s,
{
    let e = Seq::<usize>::empty();
    assert forall|r: int| 0 <= r < broadcast_rank(e, s) implies #[trigger] axes_compatible(
        dim_from_right(e, r),
        dim_from_right(s, r),
    ) by {}
    assert forall|j: int| 0 <= j < s.len() implies #[trigger] broadcast_shape(e, s)[j] == s[j] by {
        let n = s.len() as int;
        assert(dim_from_right(s, n - 1 - j) == s[j]);
        assert(dim_from_right(e, n - 1 - j) == 1);
    }
    assert(broadcast_shape(e, s) =~= s);
}

/// Under broadcasting, every in-bounds index of the output reads an in-bounds index of the
/// first operand, provided that operand has no empty axis.
pub proof fn law_broadcast_source_in_bounds(s1: Seq<usize>, s2: Seq<usize>, idx: Seq<usize>)
    requires
        broadcastable(s1, s2),
        all_dims_positive(s1),
        in_bounds(broadcast_shape(s1, s2), idx),
    ensures
        in_bounds(s1, broadcast_source(idx, s1)),
{
    let n = broadcast_rank(s1, s2) as int;
    let out = broadcast_shape(s1, s2);
    let src = broadcast_source(idx, s1);
    let l1 = s1.len() as int;
    assert forall|i: int| 0 <= i < l1 implies #[trigger] src[i] < s1[i] by {
        let off = n - l1;
        let p = i + off;
        let r = n - 1 - p;
        assert(0 <= r < n);
        assert(dim_from_right(s1, r) == s1[i]);
        assert(axes_compatible(dim_from_right(s1, r), dim_from_right(s2, r)));
        assert(out[p] == broadcast_dim(s1[i], dim_from_right(s2, r)));
        assert(idx[p] < out[p]);
        assert(s1[i] > 0);
    }
}

/// An operand of the same shape as the output is read element for element: broadcasting
/// between equal shapes pairs up matching positions.
pub proof fn law_broadcast_same_shape_aligned(s: Seq<usize>, i: nat)
    requires
        i < shape_size(s),
    ensures
        broadcast_offset(s, s, i) == i,
{
    law_unravel_round_trip(s, i);
    let u = unravel(s, i);
    lemma_size_positive(s);
    assert(broadcast_source(u, s) =~= u) by {
        assert forall|d: int| 0 <= d < s.len() implies #[trigger] broadcast_source(u, s)[d] == u[d] by {
            assert(u[d] < s[d]);
        }
    }
}

/// What broadcasting a binary operation over `a` and `b` requires beyond compatible shapes:
/// the output size fits, and where the output is not empty, neither operand has an empty axis
/// and each holds at least one element per position of its shape.
pub open spec fn broadcast_fits<T>(a: TensorView<T>, b: TensorView<T>) -> bool {
    broadcastable(a.shape, b.shape) ==> {
        &&& prefix_fit(broadcast_shape(a.shape, b.shape))
        &&& shape_size(broadcast_shape(a.shape, b.shape)) > 0 ==> {
            &&& all_dims_positive(a.shape)
            &&& all_dims_positive(b.shape)
            &&& a.data.len() >= shape_size(a.shape)
            &&& b.data.len() >= shape_size(b.shape)
        }
    }
}

/// Applies `f` to the pairs of elements that broadcasting aligns in `a` and `b`.
/// `None` when the shapes do not broadcast.
pub fn broadcast_with<T: Copy + Default, F: Fn(T, T) -> T>(a: &Tensor<T>, b: &Tensor<T>, f: F) -> (result: Option<Tensor<T>>)
    requires
        broadcast_fits(a@, b@),
        forall|x: T, y: T| #[trigger] f.requires((x, y)),
    ensures
        result is None <==> !broadcastable(a@.shape, b@.shape),
        result matches Some(t) ==> {
            let out = broadcast_shape(a@.shape, b@.shape);
            &&& t@.shape == out
            &&& t@.data.len() == shape_size(out)
            &&& forall|i: int| 0 <= i < t@.data.len() ==> #[trigger] f.ensures((
                    a@.data[broadcast_offset(a@.shape, out, i as nat) as int],
                    b@.data[broadcast_offset(b@.shape, out, i as nat) as int],
                ), t@.data[i])
            &&& t@.requires_grad == (a@.requires_grad || b@.requires_grad)
            &&& t@.op is None
            &&& t@.has_fresh_grad()
            &&& t@.wf()
        },
{
    let out_shape = match broadcast_shapes(a.shape.as_slice(), b.shape.as_slice()) {
        Some(s) => s,
        None => {
            return None;
        },
    };
    let ghost out = out_shape@;
    let a_len = a.data.len();
    let b_len = b.data.len();
    let size = shape_numel(out_shape.as_slice()).unwrap();
    let mut data: Vec<T> = Vec::new();
    let mut i: usize = 0;
    while i < size
        invariant
            out == out_shape@,
            out == broadcast_shape(a@.shape, b@.shape),
            broadcastable(a@.shape, b@.shape),
            broadcast_fits(a@, b@),
            size == shape_size(out),
            a_len == a@.data.len(),
            b_len == b@.data.len(),
            i <= size,
            data@.len() == i,
            forall|x: T, y: T| #[trigger] f.requires((x, y)),
            forall|j: int| 0 <= j < i ==> #[trigger] f.ensures((
                a@.data[broadcast_offset(a@.shape, out, j as nat) as int],
                b@.data[broadcast_offset(b@.shape, out, j as nat) as int],
            ), data@[j]),
        decreases size - i,
    {
        proof {
            lemma_size_positive(out);
            lemma_offset_of_unravel(out, i as nat);
            law_broadcast_commutative(a@.shape, b@.shape);
            lemma_size_positive(a@.shape);
            lemma_size_positive(b@.shape);
            lemma_positive_strides_fit(a@.shape);
            lemma_positive_strides_fit(b@.shape);
        }
        let indices = unravel_index(out_shape.as_slice(), i);
        let a_indices = map_indices_for_broadcast(indices.as_slice(), a.shape.as_slice());
        let b_indices = map_indices_for_broadcast(indices.as_slice(), b.shape.as_slice());
        proof {
            law_broadcast_source_in_bounds(a@.shape, b@.shape, indices@);
            law_broadcast_source_in_bounds(b@.shape, a@.shape, indices@);
            law_flat_offset_in_range(a@.shape, a_indices@);
            law_flat_offset_in_range(b@.shape, b_indices@);
        }
        let a_value = a.get_at(a_indices.as_slice());
        let b_value = b.get_at(b_indices.as_slice());
        data.push(f(a_value, b_value));
        i += 1;
    }
    Some(Tensor::new(data, out_shape, a.requires_grad || b.requires_grad))
}

/// Row `i` of a matrix with `cols` columns stored row-major in `d`.
pub open spec fn matrix_row<T>(d: Seq<T>, cols: nat, i: int) -> Seq<T> {
    Seq::new(cols, |p: int| d[i * (cols as int) + p])
}

/// Column `j` of a `rows` by `cols` matrix stored row-major in `d`.
pub open spec fn matrix_col<T>(d: Seq<T>, rows: nat, cols: nat, j: int) -> Seq<T> {
    Seq::new(rows, |p: int| d[p * (cols as int) + j])
}

/// `acc` is the run of accumulator values that folding `step` over the pairs of `xs` and `ys`
/// goes through, starting from zero: `acc[p + 1]` is what `step` gives for `acc[p]`, `xs[p]`, `ys[p]`.
pub open spec fn accumulates<T: Default, F: Fn(T, T, T) -> T>(step: F, xs: Seq<T>, ys: Seq<T>, acc: Seq<T>) -> bool {
    &&& xs.len() == ys.len()
    &&& acc.len() == xs.len() + 1
    &&& is_default(acc[0])
    &&& forall|p: int| 0 <= p < xs.len() ==> #[trigger] step.ensures((acc[p], xs[p], ys[p]), acc[p + 1])
}

/// `r` is what folding `step` over the pairs of `xs` and `ys` from zero gives.
pub open spec fn folds_to<T: Default, F: Fn(T, T, T) -> T>(step: F, xs: Seq<T>, ys: Seq<T>, r: T) -> bool {
    exists|acc: Seq<T>| #[trigger] accumulates(step, xs, ys, acc) && acc[xs.len() as int] == r
}

/// Entry `(i, j)` of a matrix product is the fold of `step` from zero along row `i` of `a` and
/// column `j` of `b`: each accumulator value is `step` of the one before, `a[i * k + p]` and
/// `b[p * n + j]`, for `p` from `0` to `k - 1`.
pub proof fn law_matmul_entry<T: Default, F: Fn(T, T, T) -> T>(step: F, a: Seq<T>, b: Seq<T>, k: nat, n: nat, i: int, j: int, r: T)
    requires
        0 <= j < n,
        folds_to(step, matrix_row(a, k, i), matrix_col(b, k, n, j), r),
    ensures
        exists|acc: Seq<T>| {
            &&& #[trigger] acc.len() == k + 1
            &&& is_default(acc[0])
            &&& acc[k as int] == r
            &&& forall|p: int| 0 <= p < k ==> #[trigger] step.ensures((acc[p], a[i * k + p], b[p * n + j]), acc[p + 1])
        },
{
    let xs = matrix_row(a, k, i);
    let ys = matrix_col(b, k, n, j);
    let acc = choose|acc: Seq<T>| #[trigger] accumulates(step, xs, ys, acc) && acc[xs.len() as int] == r;
    assert forall|p: int| 0 <= p < k implies #[trigger] step.ensures((acc[p], a[i * k + p], b[p * n + j]), acc[p + 1]) by {
        assert(step.ensures((acc[p], xs[p], ys[p]), acc[p + 1]));
    }
    assert(acc.len() == k + 1);
}

/// Matrix product of an `m` by `k` matrix `a` and a `k` by `n` matrix `b`: each entry folds
/// `step` (an accumulate-product, `acc + x * y` for numbers) over a row of `a` and a column of `b`,
/// starting from zero.
pub fn matmul_with<T: Copy + Default, F: Fn(T, T, T) -> T>(a: &Tensor<T>, b: &Tensor<T>, step: F) -> (result: Tensor<T>)
    requires
        a@.shape.len() == 2,
        b@.shape.len() == 2,
        a@.shape[1] == b@.shape[0],
        a@.shape[0] * b@.shape[1] <= usize::MAX,
        b@.shape[1] > 0 ==> a@.data.len() >= a@.shape[0] * a@.shape[1],
        a@.shape[0] > 0 ==> b@.data.len() >= b@.shape[0] * b@.shape[1],
        forall|acc: T, x: T, y: T| #[trigger] step.requires((acc, x, y)),
    ensures
        result@.shape == seq![a@.shape[0], b@.shape[1]],
        result@.data.len() == a@.shape[0] * b@.shape[1],
        forall|i: int, j: int| 0 <= i < a@.shape[0] && 0 <= j < b@.shape[1] ==> #[trigger] folds_to(
            step,
            matrix_row(a@.data, a@.shape[1] as nat, i),
            matrix_col(b@.data, b@.shape[0] as nat, b@.shape[1] as nat, j),
            result@.data[i * b@.shape[1] + j],
        ),
        result@.requires_grad == (a@.requires_grad || b@.requires_grad),
        result@.op is None,
        result@.has_fresh_grad(),
        result@.wf(),
{
    let m = a.shape[0];
    let k = a.shape[1];
    let n = b.shape[1];
    let ghost ad = a@.data;
    let ghost bd = b@.data;
    let a_len = a.data.len();
    let b_len = b.data.len();
    let mut data: Vec<T> = Vec::new();
    let mut i: usize = 0;
    while i < m
        invariant
            ad == a@.data,
            bd == b@.data,
            n > 0 ==> ad.len() >= m * k,
            m > 0 ==> bd.len() >= k * n,
            a_len == ad.len(),
            b_len == bd.len(),
            m * n <= usize::MAX,
            i <= m,
            data@.len() == i * n,
            forall|acc: T, x: T, y: T| #[trigger] step.requires((acc, x, y)),
            forall|ii: int, jj: int| 0 <= ii < i && 0 <= jj < n ==> #[trigger] folds_to(
                step,
                matrix_row(ad, k as nat, ii),
                matrix_col(bd, k as nat, n as nat, jj),
                data@[ii * n + jj],
            ),
        decreases m - i,
    {
        let mut j: usize = 0;
        while j < n
            invariant
                ad == a@.data,
                bd == b@.data,
                n > 0 ==> ad.len() >= m * k,
                m > 0 ==> bd.len() >= k * n,
                a_len == ad.len(),
                b_len == bd.len(),
                m * n <= usize::MAX,
                i < m,
                j <= n,
                data@.len() == i * n + j,
                forall|acc: T, x: T, y: T| #[trigger] step.requires((acc, x, y)),
                forall|ii: int, jj: int| 0 <= ii < i && 0 <= jj < n ==> #[trigger] folds_to(
                    step,
                    matrix_row(ad, k as nat, ii),
                    matrix_col(bd, k as nat, n as nat, jj),
                    data@[ii * n + jj],
                ),
                forall|jj: int| 0 <= jj < j ==> #[trigger] folds_to(
                    step,
                    matrix_row(ad, k as nat, i as int),
                    matrix_col(bd, k as nat, n as nat, jj),
                    data@[i * n + jj],
                ),
            decreases n - j,
        {
            let ghost row = matrix_row(ad, k as nat, i as int);
            let ghost col = matrix_col(bd, k as nat, n as nat, j as int);
            let mut sum = T::default();
            let ghost mut acc: Seq<T> = seq![sum];
            let mut p: usize = 0;
            while p < k
                invariant
                    ad == a@.data,
                    bd == b@.data,
                    n > 0 ==> ad.len() >= m * k,
                    m > 0 ==> bd.len() >= k * n,
                    a_len == ad.len(),
                    b_len == bd.len(),
                    i < m,
                    j < n,
                    p <= k,
                    row == matrix_row(ad, k as nat, i as int),
                    col == matrix_col(bd, k as nat, n as nat, j as int),
                    acc.len() == p + 1,
                    is_default(acc[0]),
                    acc[p as int] == sum,
                    forall|acc0: T, x: T, y: T| #[trigger] step.requires((acc0, x, y)),
                    forall|q: int| 0 <= q < p ==> #[trigger] step.ensures((acc[q], row[q], col[q]), acc[q + 1]),
                decreases k - p,
            {
                proof {
                    assert(i * k + p < m * k) by (nonlinear_arith)
                        requires
                            i < m,
                            p < k,
                    ;
                    assert(p * n + j < k * n) by (nonlinear_arith)
                        requires
                            p < k,
                            j < n,
                    ;
                }
                let x = a.data[i * k + p];
                let y = b.data[p * n + j];
                sum = step(sum, x, y);
                proof {
                    acc = acc.push(sum);
                    assert(row[p as int] == x);
                    assert(col[p as int] == y);
                }
                p += 1;
            }
            proof {
                assert(accumulates(step, row, col, acc));
            }
            let ghost prev = data@;
            data.push(sum);
            proof {
                assert(i * n + j < m * n) by (nonlinear_arith)
                    requires
                        i < m,
                        j < n,
                ;
                assert forall|ii: int, jj: int| 0 <= ii < i && 0 <= jj < n implies #[trigger] folds_to(
                    step,
                    matrix_row(ad, k as nat, ii),
                    matrix_col(bd, k as nat, n as nat, jj),
                    data@[ii * n + jj],
                ) by {
                    assert(ii * n + jj < i * n) by (nonlinear_arith)
                        requires
                            0 <= ii < i,
                            0 <= jj < n,
                    ;
                    assert(data@[ii * n + jj] == prev[ii * n + jj]);
                }
                assert forall|jj: int| 0 <= jj < j + 1 implies #[trigger] folds_to(
                    step,
                    matrix_row(ad, k as nat, i as int),
                    matrix_col(bd, k as nat, n as nat, jj),
                    data@[i * n + jj],
                ) by {
                    if jj == j {
                        assert(data@[i * n + jj] == sum);
                    } else {
                        assert(data@[i * n + jj] == prev[i * n + jj]);
                    }
                }
            }
            j += 1;
        }
        proof {
            assert(i * n + n == (i + 1) * n) by (nonlinear_arith);
            assert forall|ii: int, jj: int| 0 <= ii < i + 1 && 0 <= jj < n implies #[trigger] folds_to(
                step,
                matrix_row(ad, k as nat, ii),
                matrix_col(bd, k as nat, n as nat, jj),
                data@[ii * n + jj],
            ) by {
                if ii == i {
                    assert(folds_to(
                        step,
                        matrix_row(ad, k as nat, i as int),
                        matrix_col(bd, k as nat, n as nat, jj),
                        data@[i * n + jj],
                    ));
                }
            }
        }
        i += 1;
    }
    proof {
        let sh = seq![m, n];
        assert(seq![n].drop_first() =~= Seq::<usize>::empty());
        assert(shape_size(seq![n]) == (n as nat) * shape_size(Seq::<usize>::empty()));
        assert(sh.drop_first() =~= seq![n]);
        assert(shape_size(sh) == (m as nat) * shape_size(seq![n]));
        assert((m as nat) * ((n as nat) * 1) == m * n) by (nonlinear_arith);
    }
    Tensor::new(data, vec![m, n], a.requires_grad || b.requires_grad)
}

} // verus!
