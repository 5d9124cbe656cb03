//! The tensor container: a row-major buffer of elements with its shape, an optional
//! gradient buffer and the operation that produced it.
//!
//! The element type is generic; element arithmetic (sums, products, comparisons)
//! is supplied by the caller as closures, and the contracts speak of what those
//! closures return.
use vstd::prelude::*;
use vstd::std_specs::slice::into_iter_elts;
use std::rc::Rc;
use crate::shape::{
    all_dims_positive, calc_offset, flat_offset, law_flat_offset_in_range, prefix_fit,
    shape_numel, shape_size, strides_fit, unravel, in_bounds,
};

verus! {

/// The kind of operation that produced a tensor.
#[derive(Debug, Clone, Copy, PartialEq, Eq)]
pub enum OpType {
    Add,
    Mul,
    MatMul,
    Exp,
    Log,
    Sum,
    Mean,
    Div,
    Sub,
    Abs,
    Select,
    Input,
}

/// `x` is a value that `T::default()` returns (zero for the numeric types).
pub open spec fn is_default<T: Default>(x: T) -> bool {
    call_ensures(T::default, (), x)
}

/// Every entry of `s` is a default (zero) value.
pub open spec fn all_default<T: Default>(s: Seq<T>) -> bool {
    forall|i: int| 0 <= i < s.len() ==> #[trigger] is_default(s[i])
}

/// Every entry of `s` equals `v`.
pub open spec fn all_equal<T>(s: Seq<T>, v: T) -> bool {
    forall|i: int| 0 <= i < s.len() ==> #[trigger] s[i] == v
}

/// `after` is `before` with every entry reset to zero (no buffer stays no buffer).
pub open spec fn grad_zeroed<T: Default>(before: Option<Seq<T>>, after: Option<Seq<T>>) -> bool {
    match before {
        None => after is None,
        Some(g) => after matches Some(h) && h.len() == g.len() && all_default(h),
    }
}

/// A tensor: `data` holds `shape_size(shape)` elements in row-major order.
#[derive(Debug)]
pub struct Tensor<T> {
    pub data: Vec<T>,
    pub shape: Vec<usize>,
    pub grad: Option<Vec<T>>,
    pub requires_grad: bool,
    pub op: Option<OpNode<T>>,
}

/// The operation that produced a tensor, with the operands it was computed from (shared
/// snapshots of them as they were when the operation ran).
#[derive(Debug)]
pub struct OpNode<T> {
    pub op_type: OpType,
    pub inputs: Vec<Rc<Tensor<T>>>,
}

/// The kind of operation recorded in `op`, if any.
pub open spec fn op_kind<T>(op: Option<OpNode<T>>) -> Option<OpType> {
    match op {
        Some(node) => Some(node.op_type),
        None => None,
    }
}

/// The mathematical content of a tensor.
pub struct TensorView<T> {
    pub data: Seq<T>,
    pub shape: Seq<usize>,
    pub grad: Option<Seq<T>>,
    pub requires_grad: bool,
    pub op: Option<OpType>,
}

/// The view of an optional buffer.
pub open spec fn opt_view<T>(g: Option<Vec<T>>) -> Option<Seq<T>> {
    match g {
        Some(v) => Some(v@),
        None => None,
    }
}

impl<T> View for Tensor<T> {
    type V = TensorView<T>;

    open spec fn view(&self) -> TensorView<T> {
        TensorView {
            data: self.data@,
            shape: self.shape@,
            grad: opt_view(self.grad),
            requires_grad: self.requires_grad,
            op: op_kind(self.op),
        }
    }
}

impl<T> TensorView<T> {
    /// The buffer holds exactly one element per position of the shape, and a gradient,
    /// where there is one, has one entry per element.
    pub open spec fn wf(self) -> bool {
        &&& self.data.len() == shape_size(self.shape)
        &&& (self.grad matches Some(g) ==> g.len() == self.data.len())
    }
}

impl<T: Default> TensorView<T> {
    /// The gradient as a freshly built tensor has it: zeros, one per element, exactly when
    /// gradients are tracked.
    pub open spec fn has_fresh_grad(self) -> bool {
        if self.requires_grad {
            &&& self.grad matches Some(g)
            &&& g.len() == self.data.len()
            &&& all_default(g)
        } else {
            self.grad is None
        }
    }
}

/// `n` default (zero) values.
fn default_vec<T: Copy + Default>(n: usize) -> (v: Vec<T>)
    ensures
        v@.len() == n,
        all_default(v@),
{
    let z = T::default();
    let mut v: Vec<T> = Vec::new();
    let mut i: usize = 0;
    while i < n
        invariant
            i <= n,
            v@.len() == i,
            is_default(z),
            forall|j: int| 0 <= j < i ==> v@[j] == z,
        decreases n - i,
    {
        v.push(z);
        i += 1;
    }
    v
}

/// `n` copies of `x`.
fn filled_vec<T: Copy>(n: usize, x: T) -> (v: Vec<T>)
    ensures
        v@.len() == n,
        all_equal(v@, x),
{
    let mut v: Vec<T> = Vec::new();
    let mut i: usize = 0;
    while i < n
        invariant
            i <= n,
            v@.len() == i,
            forall|j: int| 0 <= j < i ==> v@[j] == x,
        decreases n - i,
    {
        v.push(x);
        i += 1;
    }
    v
}

/// An element-by-element copy of a slice.
pub(crate) fn copy_slice<T: Copy>(s: &[T]) -> (v: Vec<T>)
    ensures
        v@ == s@,
{
    let mut v: Vec<T> = Vec::new();
    let mut i: usize = 0;
    while i < s.len()
        invariant
            i <= s@.len(),
            v@ == s@.take(i as int),
        decreases s@.len() - i,
    {
        v.push(s[i]);
        i += 1;
        proof {
            assert(s@.take(i as int) =~= s@.take(i - 1).push(s@[i - 1]));
        }
    }
    proof {
        assert(s@.take(s@.len() as int) =~= s@);
    }
    v
}

fn copy_opt<T: Copy>(g: &Option<Vec<T>>) -> (r: Option<Vec<T>>)
    ensures
        opt_view(r) == opt_view(*g),
{
    match g {
        Some(v) => Some(copy_slice(v.as_slice())),
        None => None,
    }
}

/// A gradient buffer as a new tensor gets it: zeros when gradients are tracked.
fn fresh_grad<T: Copy + Default>(n: usize, requires_grad: bool) -> (g: Option<Vec<T>>)
    ensures
        requires_grad ==> (g matches Some(v) && v@.len() == n && all_default(v@)),
        !requires_grad ==> g is None,
{
    if requires_grad {
        Some(default_vec(n))
    } else {
        None
    }
}

impl<T: Copy> Clone for Tensor<T> {
    fn clone(&self) -> (r: Self)
        ensures
            r@ == self@,
    {
        Tensor {
            data: copy_slice(self.data.as_slice()),
            shape: copy_slice(self.shape.as_slice()),
            grad: copy_opt(&self.grad),
            requires_grad: self.requires_grad,
            op: match &self.op {
                Some(node) => Some(OpNode { op_type: node.op_type, inputs: node.inputs.clone() }),
                None => None,
            },
        }
    }
}

impl<T: Copy + Default> Tensor<T> {
    /// A tensor over `data` laid out with `shape`; with `requires_grad` it gets a zero gradient.
    pub fn new(data: Vec<T>, shape: Vec<usize>, requires_grad: bool) -> (t: Tensor<T>)
        requires
            data@.len() == shape_size(shape@),
        ensures
            t@.data == data@,
            t@.shape == shape@,
            t@.requires_grad == requires_grad,
            t@.op is None,
            t@.has_fresh_grad(),
            t@.wf(),
    {
        let n = data.len();
        Tensor { data, shape, grad: fresh_grad(n, requires_grad), requires_grad, op: None }
    }

    /// A tensor of zeros with the given shape.
    pub fn zeros(shape: Vec<usize>, requires_grad: bool) -> (t: Tensor<T>)
        requires
            prefix_fit(shape@),
        ensures
            t@.shape == shape@,
            t@.data.len() == shape_size(shape@),
            all_default(t@.data),
            t@.requires_grad == requires_grad,
            t@.op is None,
            t@.has_fresh_grad(),
            t@.wf(),
    {
        let size = shape_numel(shape.as_slice()).unwrap();
        Tensor {
            data: default_vec(size),
            shape,
            grad: fresh_grad(size, requires_grad),
            requires_grad,
            op: None,
        }
    }
}

impl<T: Copy> Tensor<T> {
    /// The element at flat position `index`.
    pub fn get(&self, index: usize) -> (v: T)
        requires
            index < self@.data.len(),
        ensures
            v == self@.data[index as int],
    {
        self.data[index]
    }

    /// Overwrites the element at flat position `index`.
    pub fn set(&mut self, index: usize, value: T)
        requires
            index < old(self)@.data.len(),
        ensures
            final(self)@ == (TensorView { data: old(self)@.data.update(index as int, value), ..old(self)@ }),
    {
        self.data.set(index, value);
    }

    /// Row-major flat position of the multi-index `indices`.
    pub fn calculate_flat_index(&self, indices: &[usize]) -> (index: usize)
        requires
            indices@.len() == self@.shape.len(),
            strides_fit(self@.shape),
            flat_offset(self@.shape, indices@) <= usize::MAX,
        ensures
            index == flat_offset(self@.shape, indices@),
    {
        calc_offset(self.shape.as_slice(), indices)
    }

    /// The element at the multi-index `indices`.
    pub fn get_at(&self, indices: &[usize]) -> (v: T)
        requires
            indices@.len() == self@.shape.len(),
            strides_fit(self@.shape),
            flat_offset(self@.shape, indices@) < self@.data.len(),
        ensures
            v == self@.data[flat_offset(self@.shape, indices@) as int],
    {
        let len = self.data.len();
        proof {
            assert(flat_offset(self@.shape, indices@) < len);
        }
        let flat_index = self.calculate_flat_index(indices);
        self.data[flat_index]
    }

    /// Overwrites the element at the multi-index `indices`.
    pub fn set_at(&mut self, indices: &[usize], value: T)
        requires
            indices@.len() == old(self)@.shape.len(),
            strides_fit(old(self)@.shape),
            flat_offset(old(self)@.shape, indices@) < old(self)@.data.len(),
        ensures
            final(self)@ == (TensorView {
                data: old(self)@.data.update(flat_offset(old(self)@.shape, indices@) as int, value),
                ..old(self)@
            }),
    {
        let len = self.data.len();
        proof {
            assert(flat_offset(self@.shape, indices@) < len);
        }
        let flat_index = self.calculate_flat_index(indices);
        self.data.set(flat_index, value);
    }

    /// The multi-index that flat position `flat_index` stands for.
    pub fn calc_multi_index(&self, flat_index: usize) -> (indices: Vec<usize>)
        requires
            all_dims_positive(self@.shape),
        ensures
            indices@ == unravel(self@.shape, flat_index as nat),
    {
        crate::shape::unravel_index(self.shape.as_slice(), flat_index)
    }

    /// The shape.
    pub fn shape(&self) -> (s: &Vec<usize>)
        ensures
            s@ == self@.shape,
    {
        &self.shape
    }

    /// An iterator over the elements in row-major order.
    pub fn iter(&self) -> (it: std::slice::Iter<'_, T>)
        ensures
            into_iter_elts(it) == self@.data,
    {
        self.data.as_slice().iter()
    }
}

impl<T> std::ops::Index<usize> for Tensor<T> {
    type Output = T;

    /// `tensor[index]`: the element at flat position `index`.
    fn index(&self, index: usize) -> (r: &T)
        ensures
            *r == self@.data[index as int],
    {
        &self.data[index]
    }
}

impl<T> vstd::std_specs::core::IndexSpecImpl<usize> for Tensor<T> {
    open spec fn index_req(&self, index: &usize) -> bool {
        *index < self.data@.len()
    }
}

/// Reading after writing: after position `i` of a buffer is set to `v`, reading position `i`
/// gives `v` and every other position keeps its value.
pub proof fn law_get_after_set<T>(data: Seq<T>, i: int, j: int, v: T)
    requires
        0 <= i < data.len(),
        0 <= j < data.len(),
    ensures
        data.update(i, v)[i] == v,
        j != i ==> data.update(i, v)[j] == data[j],
{
}

/// Reading after writing by multi-index: in a tensor of shape `s`, writing `v` at in-bounds index
/// `w` and then reading in-bounds index `r` gives `v` when the indices are equal and the old
/// element otherwise.
pub proof fn law_get_at_after_set_at<T>(s: Seq<usize>, data: Seq<T>, w: Seq<usize>, r: Seq<usize>, v: T)
    requires
        data.len() == shape_size(s),
        in_bounds(s, w),
        in_bounds(s, r),
    ensures
        data.update(flat_offset(s, w) as int, v)[flat_offset(s, r) as int] == (if w == r {
            v
        } else {
            data[flat_offset(s, r) as int]
        }),
{
    law_flat_offset_in_range(s, w);
    law_flat_offset_in_range(s, r);
    if flat_offset(s, w) == flat_offset(s, r) {
        crate::shape::lemma_flat_offset_injective(s, w, r);
    }
}

/// The row-major buffer of the transpose of a `rows` by `cols` matrix stored in `d`:
/// position `t` of the result reads row `t % rows`, column `t / rows` of `d`.
pub open spec fn transposed<T>(d: Seq<T>, rows: nat, cols: nat) -> Seq<T> {
    Seq::new(rows * cols, |t: int| d[(t % (rows as int)) * (cols as int) + t / (rows as int)])
}

/// Transposing a `rows` by `cols` matrix puts element `(r, c)` at position `(c, r)`: entry
/// `c * rows + r` of the result is entry `r * cols + c` of the input.
pub proof fn law_transpose_entry<T>(d: Seq<T>, rows: nat, cols: nat, r: int, c: int)
    requires
        0 <= r < rows,
        0 <= c < cols,
    ensures
        c * rows + r < rows * cols,
        transposed(d, rows, cols)[c * rows + r] == d[r * cols + c],
{
    let t = c * (rows as int) + r;
    assert(c * rows + r < rows * cols) by (nonlinear_arith)
        requires
            0 <= r < rows,
            0 <= c < cols,
    ;
    vstd::arithmetic::div_mod::lemma_fundamental_div_mod_converse(t, rows as int, c, r);
}

/// Facts about the position of an entry of a `rows` by `cols` matrix.
proof fn lemma_matrix_position(rows: nat, cols: nat, t: int)
    requires
        0 <= t < rows * cols,
    ensures
        rows > 0,
        cols > 0,
        0 <= t % (rows as int) < rows,
        0 <= t / (rows as int) < cols,
        0 <= (t % (rows as int)) * (cols as int) + t / (rows as int) < rows * cols,
{
    let r = rows as int;
    let c = cols as int;
    assert(r > 0 && c > 0) by (nonlinear_arith)
        requires
            0 <= t < r * c,
            r >= 0,
            c >= 0,
    ;
    let i = t % r;
    let j = t / r;
    assert(0 <= i < r && t == r * j + i) by {
        vstd::arithmetic::div_mod::lemma_fundamental_div_mod(t, r);
        vstd::arithmetic::div_mod::lemma_mod_bound(t, r);
    }
    assert(0 <= j < c) by (nonlinear_arith)
        requires
            0 <= i < r,
            t == r * j + i,
            0 <= t < r * c,
    ;
    assert(0 <= i * c + j < r * c) by (nonlinear_arith)
        requires
            0 <= i < r,
            0 <= j < c,
    ;
}

/// Transposing twice gives back the matrix.
pub proof fn law_transpose_involution<T>(d: Seq<T>, rows: nat, cols: nat)
    requires
        d.len() == rows * cols,
    ensures
        transposed(transposed(d, rows, cols), cols, rows) == d,
{
    let once = transposed(d, rows, cols);
    let twice = transposed(once, cols, rows);
    assert((cols * rows) == (rows * cols)) by (nonlinear_arith);
    assert forall|t: int| 0 <= t < d.len() implies #[trigger] twice[t] == d[t] by {
        let c = cols as int;
        let r = rows as int;
        lemma_matrix_position(cols, rows, t);
        let u = (t % c) * r + t / c;
        assert(twice[t] == once[u]);
        lemma_matrix_position(rows, cols, u);
        vstd::arithmetic::div_mod::lemma_fundamental_div_mod_converse(u, r, t % c, t / c);
        vstd::arithmetic::div_mod::lemma_fundamental_div_mod(t, c);
        assert(once[u] == d[(u % r) * c + u / r]);
        assert((t / c) * c + t % c == t) by (nonlinear_arith)
            requires
                t == c * (t / c) + t % c,
        ;
    }
    assert(twice =~= d);
}

impl<T: Copy + Default> Tensor<T> {
    /// The transpose of a matrix: shape `[rows, cols, ..]` becomes `[cols, rows]`.
    pub fn transpose(&self) -> (t: Tensor<T>)
        requires
            self@.shape.len() >= 2,
            self@.data.len() == self@.shape[0] * self@.shape[1],
        ensures
            t@.shape == seq![self@.shape[1], self@.shape[0]],
            t@.data == transposed(self@.data, self@.shape[0] as nat, self@.shape[1] as nat),
            t@.requires_grad == self@.requires_grad,
            t@.op is None,
            t@.has_fresh_grad(),
            t@.wf(),
    {
        let rows = self.shape[0];
        let cols = self.shape[1];
        let len = self.data.len();
        let ghost target = transposed(self@.data, rows as nat, cols as nat);
        let mut out: Vec<T> = Vec::new();
        let mut t: usize = 0;
        while t < len
            invariant
                len == self@.data.len(),
                len == rows * cols,
                t <= len,
                target == transposed(self@.data, rows as nat, cols as nat),
                target.len() == len,
                out@ == target.take(t as int),
            decreases len - t,
        {
            proof {
                lemma_matrix_position(rows as nat, cols as nat, t as int);
            }
            let i = t % rows;
            let j = t / rows;
            proof {
                assert(i * cols + j < len) by (nonlinear_arith)
                    requires
                        i < rows,
                        j < cols,
                        len == rows * cols,
                ;
            }
            out.push(self.data[i * cols + j]);
            t += 1;
            proof {
                assert(out@ =~= target.take(t as int));
            }
        }
        proof {
            assert(out@ =~= target);
            let sh = seq![cols, rows];
            assert(sh.drop_first() =~= seq![rows]);
            assert(seq![rows].drop_first() =~= Seq::<usize>::empty());
            assert(shape_size(seq![rows]) == rows as nat * shape_size(Seq::<usize>::empty()));
            assert(shape_size(sh) == (cols as nat) * shape_size(seq![rows]));
            assert((cols as nat) * ((rows as nat) * 1) == len) by (nonlinear_arith)
                requires
                    len == rows * cols,
            ;
        }
        Tensor::new(out, vec![cols, rows], self.requires_grad)
    }

    /// Resets every gradient entry to zero; a tensor without a gradient is left as it is.
    pub fn zero_grad(&mut self)
        ensures
            final(self)@.data == old(self)@.data,
            final(self)@.shape == old(self)@.shape,
            final(self)@.requires_grad == old(self)@.requires_grad,
            final(self)@.op == old(self)@.op,
            grad_zeroed(old(self)@.grad, final(self)@.grad),
    {
        match &self.grad {
            Some(g) => {
                let n = g.len();
                self.grad = Some(default_vec(n));
            },
            None => {},
        }
    }

    /// A tensor of zeros of the same shape, with a fresh gradient, whose first elements are
    /// `f` of this one's (all of them, for a well-formed tensor).
    pub fn map<F: Fn(T) -> T>(&self, f: F) -> (t: Tensor<T>)
        requires
            prefix_fit(self@.shape),
            self@.data.len() <= shape_size(self@.shape),
            forall|x: T| #[trigger] f.requires((x,)),
        ensures
            t@.shape == self@.shape,
            t@.data.len() == shape_size(self@.shape),
            forall|i: int| 0 <= i < self@.data.len() ==> #[trigger] f.ensures((self@.data[i],), t@.data[i]),
            forall|i: int| self@.data.len() <= i < t@.data.len() ==> #[trigger] is_default(t@.data[i]),
            t@.requires_grad == self@.requires_grad,
            t@.op is None,
            t@.has_fresh_grad(),
            t@.wf(),
    {
        let mut result = Tensor::zeros(copy_slice(self.shape.as_slice()), self.requires_grad);
        let mut i: usize = 0;
        while i < self.data.len()
            invariant
                i <= self@.data.len(),
                self@.data.len() <= result@.data.len(),
                result@.shape == self@.shape,
                result@.data.len() == shape_size(self@.shape),
                result@.requires_grad == self@.requires_grad,
                result@.op is None,
                result@.has_fresh_grad(),
                forall|x: T| #[trigger] f.requires((x,)),
                forall|j: int| 0 <= j < i ==> #[trigger] f.ensures((self@.data[j],), result@.data[j]),
                forall|j: int| i <= j < result@.data.len() ==> #[trigger] is_default(result@.data[j]),
            decreases self@.data.len() - i,
        {
            let v = f(self.data[i]);
            result.set(i, v);
            i += 1;
        }
        result
    }

    /// Element-wise absolute value, `magnitude` giving it for one element; where gradients are
    /// tracked the result records that it came from `OpType::Abs` applied to (a copy of) this tensor.
    pub fn abs_by<F: Fn(T) -> T>(&self, magnitude: F) -> (t: Tensor<T>)
        requires
            self@.data.len() == shape_size(self@.shape),
            forall|x: T| #[trigger] magnitude.requires((x,)),
        ensures
            t@.shape == self@.shape,
            t@.data.len() == self@.data.len(),
            forall|i: int| 0 <= i < self@.data.len() ==> #[trigger] magnitude.ensures((self@.data[i],), t@.data[i]),
            t@.requires_grad == self@.requires_grad,
            t@.op == (if self@.requires_grad { Some(OpType::Abs) } else { None }),
            self@.requires_grad ==> (t.op matches Some(node) && node.inputs@.len() == 1 && (*node.inputs@[0])@ == self@),
            t@.has_fresh_grad(),
            t@.wf(),
    {
        let data = map_vec(&self.data, &magnitude);
        let mut t = Tensor::new(data, copy_slice(self.shape.as_slice()), self.requires_grad);
        if self.requires_grad {
            let input = Rc::new(self.clone());
            t.op = Some(OpNode { op_type: OpType::Abs, inputs: vec![input] });
        }
        t
    }

    /// A mask of the same shape without gradient tracking: `on` where `pred` holds of the
    /// element, `off` where it does not.
    pub fn mask_where<F: Fn(T) -> bool>(&self, pred: F, on: T, off: T) -> (t: Tensor<T>)
        requires
            self@.data.len() == shape_size(self@.shape),
            forall|x: T| #[trigger] pred.requires((x,)),
        ensures
            t@.shape == self@.shape,
            t@.data.len() == self@.data.len(),
            forall|i: int| 0 <= i < self@.data.len() ==> #[trigger] picks(pred, self@.data[i], on, off, t@.data[i]),
            !t@.requires_grad,
            t@.grad is None,
            t@.op is None,
            t@.wf(),
    {
        let mut out: Vec<T> = Vec::new();
        let mut i: usize = 0;
        while i < self.data.len()
            invariant
                i <= self@.data.len(),
                out@.len() == i,
                forall|x: T| #[trigger] pred.requires((x,)),
                forall|j: int| 0 <= j < i ==> #[trigger] picks(pred, self@.data[j], on, off, out@[j]),
            decreases self@.data.len() - i,
        {
            let b = pred(self.data[i]);
            out.push(if b { on } else { off });
            i += 1;
        }
        Tensor::new(out, copy_slice(self.shape.as_slice()), false)
    }

    /// Chooses element by element between `if_true` and `if_false` by this tensor read as a
    /// mask: where `is_set` holds of the mask element, the element of `if_true`.
    pub fn select_by<F: Fn(T) -> bool>(&self, if_true: &Tensor<T>, if_false: &Tensor<T>, is_set: F) -> (t: Tensor<T>)
        requires
            self@.data.len() == shape_size(self@.shape),
            if_true@.data.len() == self@.data.len(),
            if_false@.data.len() == self@.data.len(),
            forall|x: T| #[trigger] is_set.requires((x,)),
        ensures
            t@.shape == self@.shape,
            t@.data.len() == self@.data.len(),
            forall|i: int| 0 <= i < self@.data.len() ==> #[trigger] picks(is_set, self@.data[i],
                if_true@.data[i], if_false@.data[i], t@.data[i]),
            t@.requires_grad == (if_true@.requires_grad || if_false@.requires_grad),
            t@.op is None,
            t@.has_fresh_grad(),
            t@.wf(),
    {
        let mut out: Vec<T> = Vec::new();
        let mut i: usize = 0;
        while i < self.data.len()
            invariant
                i <= self@.data.len(),
                if_true@.data.len() == self@.data.len(),
                if_false@.data.len() == self@.data.len(),
                out@.len() == i,
                forall|x: T| #[trigger] is_set.requires((x,)),
                forall|j: int| 0 <= j < i ==> #[trigger] picks(is_set, self@.data[j], if_true@.data[j],
                    if_false@.data[j], out@[j]),
            decreases self@.data.len() - i,
        {
            let v = if is_set(self.data[i]) { if_true.data[i] } else { if_false.data[i] };
            out.push(v);
            i += 1;
        }
        Tensor::new(out, copy_slice(self.shape.as_slice()), if_true.requires_grad || if_false.requires_grad)
    }
}

/// `r` is what a choice by `pred` between `on` and `off` gives for `x`.
pub open spec fn picks<T, F: Fn(T) -> bool>(pred: F, x: T, on: T, off: T, r: T) -> bool {
    ||| pred.ensures((x,), true) && r == on
    ||| pred.ensures((x,), false) && r == off
}

/// `f` applied to every element of `v`.
fn map_vec<T: Copy, F: Fn(T) -> T>(v: &Vec<T>, f: &F) -> (out: Vec<T>)
    requires
        forall|x: T| #[trigger] f.requires((x,)),
    ensures
        out@.len() == v@.len(),
        forall|i: int| 0 <= i < v@.len() ==> #[trigger] f.ensures((v@[i],), out@[i]),
{
    let mut out: Vec<T> = Vec::new();
    let mut i: usize = 0;
    while i < v.len()
        invariant
            i <= v@.len(),
            out@.len() == i,
            forall|x: T| #[trigger] f.requires((x,)),
            forall|j: int| 0 <= j < i ==> #[trigger] f.ensures((v@[j],), out@[j]),
        decreases v@.len() - i,
    {
        out.push(f(v[i]));
        i += 1;
    }
    out
}

impl<T: Copy> Tensor<T> {
    /// A copy of this tensor, gradient and operation included, whose elements are `f` of this one's.
    pub fn map_values<F: Fn(T) -> T>(&self, f: F) -> (t: Tensor<T>)
        requires
            forall|x: T| #[trigger] f.requires((x,)),
        ensures
            t@.shape == self@.shape,
            t@.grad == self@.grad,
            t@.requires_grad == self@.requires_grad,
            t@.op == self@.op,
            t@.data.len() == self@.data.len(),
            forall|i: int| 0 <= i < self@.data.len() ==> #[trigger] f.ensures((self@.data[i],), t@.data[i]),
    {
        let mut t = self.clone();
        t.data = map_vec(&self.data, &f);
        t
    }

    /// Starts back-propagation at this tensor, where gradients are tracked: a tensor without a
    /// gradient buffer gets one entry per element; then, for a single-element tensor, the first
    /// gradient entry is set to `seed` (one, for a loss), and otherwise every entry is.
    pub fn backward(&mut self, seed: T)
        requires
            old(self)@.requires_grad && old(self)@.data.len() == 1 ==> (old(self)@.grad matches Some(g) ==> g.len() > 0),
        ensures
            final(self)@.data == old(self)@.data,
            final(self)@.shape == old(self)@.shape,
            final(self)@.requires_grad == old(self)@.requires_grad,
            final(self)@.op == old(self)@.op,
            !old(self)@.requires_grad ==> final(self)@.grad == old(self)@.grad,
            old(self)@.requires_grad ==> (final(self)@.grad matches Some(h) && match old(self)@.grad {
                None => h.len() == old(self)@.data.len() && all_equal(h, seed),
                Some(g) => if old(self)@.data.len() == 1 {
                    h == g.update(0, seed)
                } else {
                    h.len() == g.len() && all_equal(h, seed)
                },
            }),
    {
        if self.requires_grad {
            match &mut self.grad {
                None => {
                    self.grad = Some(filled_vec(self.data.len(), seed));
                },
                Some(g) => {
                    if self.data.len() == 1 {
                        g.set(0, seed);
                    } else {
                        let n = g.len();
                        *g = filled_vec(n, seed);
                    }
                },
            }
        }
    }

    /// Adds `grad` into the gradient, `plus` summing two entries; a tensor without a gradient
    /// takes `grad` as it is.
    pub fn accumulate_grad<F: Fn(T, T) -> T>(&mut self, grad: &[T], plus: F)
        requires
            old(self)@.grad matches Some(g) ==> g.len() == grad@.len(),
            forall|x: T, y: T| #[trigger] plus.requires((x, y)),
        ensures
            final(self)@.data == old(self)@.data,
            final(self)@.shape == old(self)@.shape,
            final(self)@.requires_grad == old(self)@.requires_grad,
            final(self)@.op == old(self)@.op,
            old(self)@.grad is None ==> final(self)@.grad == Some(grad@),
            old(self)@.grad matches Some(g) ==> (final(self)@.grad matches Some(h) && h.len() == g.len()
                && forall|i: int| 0 <= i < g.len() ==> #[trigger] plus.ensures((g[i], grad@[i]), h[i])),
    {
        match &self.grad {
            None => {
                self.grad = Some(copy_slice(grad));
            },
            Some(g) => {
                let mut h: Vec<T> = Vec::new();
                let mut i: usize = 0;
                while i < g.len()
                    invariant
                        i <= g@.len(),
                        g@.len() == grad@.len(),
                        h@.len() == i,
                        forall|x: T, y: T| #[trigger] plus.requires((x, y)),
                        forall|j: int| 0 <= j < i ==> #[trigger] plus.ensures((g@[j], grad@[j]), h@[j]),
                    decreases g@.len() - i,
                {
                    h.push(plus(g[i], grad[i]));
                    i += 1;
                }
                self.grad = Some(h);
            },
        }
    }
}

} // verus!
