//! Neural-network building blocks over the generic tensor: activations, the linear layer,
//! trainable parameters and dropout. Scalar arithmetic is supplied by the caller.
use vstd::prelude::*;
use crate::ops::{
    broadcast_offset, broadcast_shape, broadcastable, broadcast_fits, broadcast_with, folds_to,
    matmul_with, matrix_col, matrix_row,
};
use crate::shape::{all_dims_positive, prefix_fit, shape_size};
use crate::tensor::{all_default, copy_slice, grad_zeroed, is_default, picks, transposed, Tensor, TensorView};

verus! {

/// Rectified linear unit: keeps positive elements and zeroes the others.
pub struct ReLU;

/// Logistic sigmoid, element by element.
pub struct Sigmoid;

/// Hyperbolic tangent, element by element.
pub struct Tanh;

/// Swish (`x` times its sigmoid), element by element.
pub struct Swish;

/// The input with its elements replaced by `g` of them, gradient and operation kept,
/// as an element-wise activation leaves them.
pub open spec fn activation_result<T, G: Fn(T) -> T>(input: TensorView<T>, g: G, out: TensorView<T>) -> bool {
    &&& out.shape == input.shape
    &&& out.grad == input.grad
    &&& out.requires_grad == input.requires_grad
    &&& out.op == input.op
    &&& out.data.len() == input.data.len()
    &&& forall|i: int| 0 <= i < input.data.len() ==> #[trigger] g.ensures((input.data[i],), out.data[i])
}

impl ReLU {
    /// Keeps each element for which `is_positive` holds and puts zero in place of the others.
    pub fn forward<T: Copy + Default, P: Fn(T) -> bool>(&self, input: &Tensor<T>, is_positive: P) -> (out: Tensor<T>)
        requires
            forall|x: T| #[trigger] is_positive.requires((x,)),
        ensures
            out@.shape == input@.shape,
            out@.grad == input@.grad,
            out@.requires_grad == input@.requires_grad,
            out@.op == input@.op,
            out@.data.len() == input@.data.len(),
            forall|i: int| 0 <= i < input@.data.len() ==> #[trigger] rectified(is_positive, input@.data[i], out@.data[i]),
    {
        let mut out = input.clone();
        let zero = T::default();
        let mut data: Vec<T> = Vec::new();
        let mut i: usize = 0;
        while i < input.data.len()
            invariant
                i <= input@.data.len(),
                data@.len() == i,
                is_default(zero),
                forall|x: T| #[trigger] is_positive.requires((x,)),
                forall|j: int| 0 <= j < i ==> #[trigger] picks(is_positive, input@.data[j], input@.data[j], zero, data@[j]),
            decreases input@.data.len() - i,
        {
            let x = input.data[i];
            let keep = is_positive(x);
            data.push(if keep { x } else { zero });
            i += 1;
        }
        out.data = data;
        proof {
            assert forall|i: int| 0 <= i < input@.data.len() implies #[trigger] rectified(is_positive, input@.data[i], out@.data[i]) by {
                assert(picks(is_positive, input@.data[i], input@.data[i], zero, out@.data[i]));
            }
        }
        out
    }
}

/// `r` is the rectified `x`: `x` itself where `is_positive` holds of it, else zero.
pub open spec fn rectified<T: Default, P: Fn(T) -> bool>(is_positive: P, x: T, r: T) -> bool {
    ||| is_positive.ensures((x,), true) && r == x
    ||| is_positive.ensures((x,), false) && is_default(r)
}

impl Sigmoid {
    /// Each element replaced by `sigma` of it, `sigma` being the logistic function `1 / (1 + e^-x)`.
    pub fn forward<T: Copy, G: Fn(T) -> T>(&self, input: &Tensor<T>, sigma: G) -> (out: Tensor<T>)
        requires
            forall|x: T| #[trigger] sigma.requires((x,)),
        ensures
            activation_result(input@, sigma, out@),
    {
        input.map_values(sigma)
    }
}

impl Tanh {
    /// Each element replaced by `tanh` of it.
    pub fn forward<T: Copy, G: Fn(T) -> T>(&self, input: &Tensor<T>, tanh: G) -> (out: Tensor<T>)
        requires
            forall|x: T| #[trigger] tanh.requires((x,)),
        ensures
            activation_result(input@, tanh, out@),
    {
        input.map_values(tanh)
    }
}

impl Swish {
    /// Each element replaced by `swish` of it, `swish` being `x / (1 + e^-x)`.
    pub fn forward<T: Copy, G: Fn(T) -> T>(&self, input: &Tensor<T>, swish: G) -> (out: Tensor<T>)
        requires
            forall|x: T| #[trigger] swish.requires((x,)),
        ensures
            activation_result(input@, swish, out@),
    {
        input.map_values(swish)
    }
}

/// Leaky rectifier: keeps positive elements and scales the others by `negative_slope`.
pub struct LeakyReLU<T> {
    pub negative_slope: T,
}

/// `r` is the leaky-rectified `x`: `x` itself where `is_positive` holds of it, else what
/// `times` gives for `slope` and `x`.
pub open spec fn leaky<T, P: Fn(T) -> bool, S: Fn(T, T) -> T>(is_positive: P, times: S, slope: T, x: T, r: T) -> bool {
    ||| is_positive.ensures((x,), true) && r == x
    ||| is_positive.ensures((x,), false) && times.ensures((slope, x), r)
}

impl<T: Copy> LeakyReLU<T> {
    /// Keeps each element for which `is_positive` holds and replaces the others by `times`
    /// of the slope and the element (their product, for numbers).
    pub fn forward<P: Fn(T) -> bool, S: Fn(T, T) -> T>(&self, input: &Tensor<T>, is_positive: P, times: S) -> (out: Tensor<T>)
        requires
            forall|x: T| #[trigger] is_positive.requires((x,)),
            forall|a: T, b: T| #[trigger] times.requires((a, b)),
        ensures
            out@.shape == input@.shape,
            out@.grad == input@.grad,
            out@.requires_grad == input@.requires_grad,
            out@.op == input@.op,
            out@.data.len() == input@.data.len(),
            forall|i: int| 0 <= i < input@.data.len() ==> #[trigger] leaky(is_positive, times, self.negative_slope, input@.data[i], out@.data[i]),
    {
        let mut out = input.clone();
        let slope = self.negative_slope;
        let mut data: Vec<T> = Vec::new();
        let mut i: usize = 0;
        while i < input.data.len()
            invariant
                i <= input@.data.len(),
                data@.len() == i,
                slope == self.negative_slope,
                forall|x: T| #[trigger] is_positive.requires((x,)),
                forall|a: T, b: T| #[trigger] times.requires((a, b)),
                forall|j: int| 0 <= j < i ==> #[trigger] leaky(is_positive, times, slope, input@.data[j], data@[j]),
            decreases input@.data.len() - i,
        {
            let x = input.data[i];
            let keep = is_positive(x);
            let r = if keep { x } else { times(slope, x) };
            data.push(r);
            i += 1;
        }
        out.data = data;
        out
    }
}

/// Softmax over all the elements of a tensor, whatever its shape.
pub struct Softmax;

/// `acc` is the run of values that folding `f` over `xs` from `init` goes through:
/// `acc[p + 1]` is what `f` gives for `acc[p]` and `xs[p]`.
pub open spec fn fold_run<T, F: Fn(T, T) -> T>(f: F, init: T, xs: Seq<T>, acc: Seq<T>) -> bool {
    &&& acc.len() == xs.len() + 1
    &&& acc[0] == init
    &&& forall|p: int| 0 <= p < xs.len() ==> #[trigger] f.ensures((acc[p], xs[p]), acc[p + 1])
}

/// `r` is what folding `f` over `xs` from `init` gives.
pub open spec fn folds<T, F: Fn(T, T) -> T>(f: F, init: T, xs: Seq<T>, r: T) -> bool {
    exists|acc: Seq<T>| #[trigger] fold_run(f, init, xs, acc) && acc[xs.len() as int] == r
}

/// The steps of a softmax of `xs` into `out`: `m` folds `larger` over `xs` from `lowest`,
/// `e[i]` is `shifted_exp` of `xs[i]` and `m`, `s` folds `plus` over `e` from zero, and
/// `out[i]` is `divide` of `e[i]` and `s`.
pub open spec fn softmax_steps<T: Default, M: Fn(T, T) -> T, E: Fn(T, T) -> T, P: Fn(T, T) -> T, D: Fn(T, T) -> T>(
    lowest: T,
    larger: M,
    shifted_exp: E,
    plus: P,
    divide: D,
    xs: Seq<T>,
    out: Seq<T>,
    m: T,
    e: Seq<T>,
    z: T,
    s: T,
) -> bool {
    &&& folds(larger, lowest, xs, m)
    &&& e.len() == xs.len()
    &&& forall|i: int| 0 <= i < xs.len() ==> #[trigger] shifted_exp.ensures((xs[i], m), e[i])
    &&& is_default(z)
    &&& folds(plus, z, e, s)
    &&& out.len() == xs.len()
    &&& forall|i: int| 0 <= i < xs.len() ==> #[trigger] divide.ensures((e[i], s), out[i])
}

/// `out` is a softmax of `xs` under the given arithmetic.
pub open spec fn softmax_of<T: Default, M: Fn(T, T) -> T, E: Fn(T, T) -> T, P: Fn(T, T) -> T, D: Fn(T, T) -> T>(
    lowest: T,
    larger: M,
    shifted_exp: E,
    plus: P,
    divide: D,
    xs: Seq<T>,
    out: Seq<T>,
) -> bool {
    exists|m: T, e: Seq<T>, z: T, s: T| #[trigger] softmax_steps(lowest, larger, shifted_exp, plus, divide, xs, out, m, e, z, s)
}

/// Folds `f` over `xs` from `init`.
fn fold_vec<T: Copy, F: Fn(T, T) -> T>(xs: &Vec<T>, init: T, f: &F) -> (r: T)
    requires
        forall|a: T, b: T| #[trigger] f.requires((a, b)),
    ensures
        folds(*f, init, xs@, r),
{
    let mut acc = init;
    let ghost mut run: Seq<T> = seq![init];
    let mut i: usize = 0;
    while i < xs.len()
        invariant
            i <= xs@.len(),
            run.len() == i + 1,
            run[0] == init,
            run[i as int] == acc,
            forall|a: T, b: T| #[trigger] f.requires((a, b)),
            forall|p: int| 0 <= p < i ==> #[trigger] f.ensures((run[p], xs@[p]), run[p + 1]),
        decreases xs@.len() - i,
    {
        let next = f(acc, xs[i]);
        proof {
            run = run.push(next);
        }
        acc = next;
        i += 1;
    }
    proof {
        assert(fold_run(*f, init, xs@, run));
    }
    acc
}

/// `f` applied to every element of `xs` paired with `y`.
fn map_with<T: Copy, F: Fn(T, T) -> T>(xs: &Vec<T>, y: T, f: &F) -> (out: Vec<T>)
    requires
        forall|a: T, b: T| #[trigger] f.requires((a, b)),
    ensures
        out@.len() == xs@.len(),
        forall|i: int| 0 <= i < xs@.len() ==> #[trigger] f.ensures((xs@[i], y), out@[i]),
{
    let mut out: Vec<T> = Vec::new();
    let mut i: usize = 0;
    while i < xs.len()
        invariant
            i <= xs@.len(),
            out@.len() == i,
            forall|a: T, b: T| #[trigger] f.requires((a, b)),
            forall|j: int| 0 <= j < i ==> #[trigger] f.ensures((xs@[j], y), out@[j]),
        decreases xs@.len() - i,
    {
        out.push(f(xs[i], y));
        i += 1;
    }
    out
}

impl Softmax {
    /// Softmax of every element: the largest element `m` is found by folding `larger` from
    /// `lowest` (negative infinity for floats), each element becomes `shifted_exp` of it and `m`
    /// (`e^(x - m)`), and each of those is divided by their sum, taken with `plus` from zero.
    /// The result has the input's shape and a fresh gradient where gradients are tracked.
    pub fn forward<T: Copy + Default, M: Fn(T, T) -> T, E: Fn(T, T) -> T, P: Fn(T, T) -> T, D: Fn(T, T) -> T>(
        &self,
        input: &Tensor<T>,
        lowest: T,
        larger: M,
        shifted_exp: E,
        plus: P,
        divide: D,
    ) -> (out: Tensor<T>)
        requires
            input@.data.len() == shape_size(input@.shape),
            forall|a: T, b: T| #[trigger] larger.requires((a, b)),
            forall|a: T, b: T| #[trigger] shifted_exp.requires((a, b)),
            forall|a: T, b: T| #[trigger] plus.requires((a, b)),
            forall|a: T, b: T| #[trigger] divide.requires((a, b)),
        ensures
            out@.shape == input@.shape,
            out@.requires_grad == input@.requires_grad,
            out@.op is None,
            out@.has_fresh_grad(),
            out@.wf(),
            softmax_of(lowest, larger, shifted_exp, plus, divide, input@.data, out@.data),
    {
        let m = fold_vec(&input.data, lowest, &larger);
        let e = map_with(&input.data, m, &shifted_exp);
        let z = T::default();
        let s = fold_vec(&e, z, &plus);
        let data = map_with(&e, s, &divide);
        proof {
            assert(softmax_steps(lowest, larger, shifted_exp, plus, divide, input@.data, data@, m, e@, z, s));
        }
        Tensor::new(data, copy_slice(input.shape.as_slice()), input.requires_grad)
    }
}

/// Layers applied one after the other.
pub struct Sequential<L> {
    pub layers: Vec<L>,
}

/// `states` runs through the layers: it starts at (a copy of) `input`, and each state is what
/// `apply` gives for the next layer and the state before it.
pub open spec fn layer_run<T, L, F: Fn(&L, &Tensor<T>) -> Tensor<T>>(layers: Seq<L>, apply: F, input: TensorView<T>, states: Seq<Tensor<T>>) -> bool {
    &&& states.len() == layers.len() + 1
    &&& states[0]@ == input
    &&& forall|k: int| 0 <= k < layers.len() ==> #[trigger] apply.ensures((&layers[k], &states[k]), states[k + 1])
}

/// Running no layers gives the input back: the run is the (copied) input alone.
pub proof fn law_layer_run_empty<T, L, F: Fn(&L, &Tensor<T>) -> Tensor<T>>(apply: F, input: TensorView<T>, states: Seq<Tensor<T>>)
    requires
        layer_run(Seq::<L>::empty(), apply, input, states),
    ensures
        states.len() == 1,
        states.last()@ == input,
{
}

/// Running the layers followed by one more is running the layers, then that layer once on
/// what they gave.
pub proof fn law_layer_run_push<T, L, F: Fn(&L, &Tensor<T>) -> Tensor<T>>(
    layers: Seq<L>,
    apply: F,
    input: TensorView<T>,
    states: Seq<Tensor<T>>,
    layer: L,
    out: Tensor<T>,
)
    ensures
        layer_run(layers.push(layer), apply, input, states.push(out)) <==> (layer_run(layers, apply, input, states)
            && apply.ensures((&layer, &states.last()), out)),
{
    let ls = layers.push(layer);
    let ss = states.push(out);
    if layer_run(ls, apply, input, ss) {
        assert(states.len() == layers.len() + 1);
        assert(ss[0] == states[0]);
        assert forall|k: int| 0 <= k < layers.len() implies #[trigger] apply.ensures((&layers[k], &states[k]), states[k + 1]) by {
            assert(ls[k] == layers[k]);
            assert(ss[k] == states[k] && ss[k + 1] == states[k + 1]);
            assert(apply.ensures((&ls[k], &ss[k]), ss[k + 1]));
        }
        let n = layers.len() as int;
        assert(apply.ensures((&ls[n], &ss[n]), ss[n + 1]));
        assert(ls[n] == layer && ss[n] == states.last() && ss[n + 1] == out);
    }
    if layer_run(layers, apply, input, states) && apply.ensures((&layer, &states.last()), out) {
        assert forall|k: int| 0 <= k < ls.len() implies #[trigger] apply.ensures((&ls[k], &ss[k]), ss[k + 1]) by {
            if k < layers.len() {
                assert(apply.ensures((&layers[k], &states[k]), states[k + 1]));
            }
        }
    }
}

/// `part` is what `params_of` gives for `layer`.
pub open spec fn param_part<T, L, P: Fn(&L) -> Vec<Tensor<T>>>(params_of: P, layer: &L, part: Seq<Tensor<T>>) -> bool {
    exists|v: Vec<Tensor<T>>| #[trigger] params_of.ensures((layer,), v) && v@ == part
}

/// `parts` holds, layer by layer, what `params_of` gives for each of `layers`.
pub open spec fn layer_params<T, L, P: Fn(&L) -> Vec<Tensor<T>>>(layers: Seq<L>, params_of: P, parts: Seq<Seq<Tensor<T>>>) -> bool {
    &&& parts.len() == layers.len()
    &&& forall|k: int| 0 <= k < layers.len() ==> #[trigger] param_part(params_of, &layers[k], parts[k])
}

/// How many items the parts hold together.
pub open spec fn total_len<A>(parts: Seq<Seq<A>>) -> nat
    decreases parts.len(),
{
    if parts.len() == 0 {
        0
    } else {
        parts[0].len() + total_len(parts.drop_first())
    }
}

proof fn lemma_flatten_len<A>(parts: Seq<Seq<A>>)
    ensures
        parts.flatten().len() == total_len(parts),
    decreases parts.len(),
{
    if parts.len() > 0 {
        lemma_flatten_len(parts.drop_first());
    }
}

/// The parameters of a stack of layers are, layer by layer, the whole list each layer gives:
/// part `k` is exactly a list that `params_of` returns for layer `k`, so there are as many
/// parameters in all as those lists hold together.
pub proof fn law_parameters_whole_lists<T, L, P: Fn(&L) -> Vec<Tensor<T>>>(
    layers: Seq<L>,
    params_of: P,
    parts: Seq<Seq<Tensor<T>>>,
    params: Seq<Tensor<T>>,
)
    requires
        layer_params(layers, params_of, parts),
        params == parts.flatten(),
    ensures
        parts.len() == layers.len(),
        exists|lists: Seq<Vec<Tensor<T>>>| #[trigger] lists.len() == layers.len() && {
            &&& forall|k: int| #![trigger lists[k]] 0 <= k < layers.len() ==> params_of.ensures((&layers[k],), lists[k])
            &&& forall|k: int| #![trigger lists[k]] 0 <= k < layers.len() ==> lists[k]@ == parts[k]
        },
        params.len() == total_len(parts),
{
    let lists = Seq::new(layers.len(), |k: int| choose|v: Vec<Tensor<T>>| #[trigger] params_of.ensures((&layers[k],), v) && v@ == parts[k]);
    assert forall|k: int| #![trigger lists[k]] 0 <= k < layers.len() implies params_of.ensures((&layers[k],), lists[k]) && lists[k]@ == parts[k] by {
        assert(param_part(params_of, &layers[k], parts[k]));
    }
    assert(lists.len() == layers.len());
    lemma_flatten_len(parts);
}

impl<L> Sequential<L> {
    /// A stack of `layers`.
    pub fn new(layers: Vec<L>) -> (s: Sequential<L>)
        ensures
            s.layers@ == layers@,
    {
        Sequential { layers }
    }

    /// Feeds `input` through every layer in order, `apply` running one layer on a tensor.
    pub fn forward_with<T: Copy, F: Fn(&L, &Tensor<T>) -> Tensor<T>>(&self, input: &Tensor<T>, apply: F) -> (out: Tensor<T>)
        requires
            forall|l: &L, t: &Tensor<T>| #[trigger] apply.requires((l, t)),
        ensures
            exists|states: Seq<Tensor<T>>| #[trigger] layer_run(self.layers@, apply, input@, states) && states.last() == out,
    {
        let mut current = input.clone();
        let ghost mut states: Seq<Tensor<T>> = seq![current];
        let mut k: usize = 0;
        while k < self.layers.len()
            invariant
                k <= self.layers@.len(),
                states.len() == k + 1,
                states[0]@ == input@,
                states.last() == current,
                forall|l: &L, t: &Tensor<T>| #[trigger] apply.requires((l, t)),
                forall|j: int| 0 <= j < k ==> #[trigger] apply.ensures((&self.layers@[j], &states[j]), states[j + 1]),
            decreases self.layers@.len() - k,
        {
            let next = apply(&self.layers[k], &current);
            proof {
                states = states.push(next);
            }
            current = next;
            k += 1;
        }
        proof {
            assert(layer_run(self.layers@, apply, input@, states));
        }
        current
    }

    /// The parameters of every layer, layer by layer, `params_of` giving those of one layer.
    pub fn parameters_with<T, P: Fn(&L) -> Vec<Tensor<T>>>(&self, params_of: P) -> (params: Vec<Tensor<T>>)
        requires
            forall|l: &L| #[trigger] params_of.requires((l,)),
        ensures
            exists|parts: Seq<Seq<Tensor<T>>>| #[trigger] layer_params(self.layers@, params_of, parts) && params@ == parts.flatten(),
    {
        let mut params: Vec<Tensor<T>> = Vec::new();
        let ghost mut parts: Seq<Seq<Tensor<T>>> = Seq::empty();
        let mut k: usize = 0;
        while k < self.layers.len()
            invariant
                k <= self.layers@.len(),
                parts.len() == k,
                params@ == parts.flatten(),
                forall|l: &L| #[trigger] params_of.requires((l,)),
                forall|j: int| 0 <= j < k ==> #[trigger] param_part(params_of, &self.layers@[j], parts[j]),
            decreases self.layers@.len() - k,
        {
            let mut more = params_of(&self.layers[k]);
            proof {
                assert(param_part(params_of, &self.layers@[k as int], more@));
                let prev = parts;
                parts = parts.push(more@);
                assert(parts.drop_last() =~= prev);
                prev.lemma_flatten_push(more@);
            }
            params.append(&mut more);
            k += 1;
        }
        proof {
            assert(layer_params(self.layers@, params_of, parts));
        }
        params
    }
}

/// A fully connected layer: `weight` is `out_features` by `in_features`, `bias`, where there
/// is one, is `1` by `out_features`.
pub struct Linear<T> {
    pub in_features: usize,
    pub out_features: usize,
    pub weight: Tensor<T>,
    pub bias: Option<Tensor<T>>,
}

/// Column `j` of the transpose of a `rows` by `cols` matrix is row `j` of the matrix.
proof fn lemma_transposed_col<T>(d: Seq<T>, rows: nat, cols: nat, j: int)
    requires
        d.len() == rows * cols,
        0 <= j < rows,
    ensures
        matrix_col(transposed(d, rows, cols), cols, rows, j) == matrix_row(d, cols, j),
{
    let t = transposed(d, rows, cols);
    assert forall|p: int| 0 <= p < cols implies #[trigger] matrix_col(t, cols, rows, j)[p]
        == matrix_row(d, cols, j)[p] by {
        let r = rows as int;
        let c = cols as int;
        let u = p * r + j;
        assert(0 <= u < r * c) by (nonlinear_arith)
            requires
                0 <= p < c,
                0 <= j < r,
                u == p * r + j,
        ;
        assert(u == r * p + j) by (nonlinear_arith)
            requires
                u == p * r + j,
        ;
        vstd::arithmetic::div_mod::lemma_fundamental_div_mod_converse(u, rows as int, p, j);
        assert(t[u] == d[j * (cols as int) + p]);
    }
    assert(matrix_col(t, cols, rows, j) =~= matrix_row(d, cols, j));
}

/// Broadcasting a `1` by `n` row against a `b` by `n` matrix reads, for flat position `t`,
/// entry `t % n` of the row; the matrix itself is read at `t`.
proof fn lemma_row_broadcast_offsets(b: usize, n: usize, t: nat)
    requires
        b > 0,
        t < b * n,
    ensures
        broadcast_shape(seq![b, n], seq![1usize, n]) == seq![b, n],
        broadcastable(seq![b, n], seq![1usize, n]),
        broadcast_offset(seq![1usize, n], seq![b, n], t) == t % (n as nat),
        broadcast_offset(seq![b, n], seq![b, n], t) == t,
{
    let out = seq![b, n];
    let row = seq![1usize, n];
    assert(broadcast_shape(out, row) =~= out);
    assert(forall|r: int| 0 <= r < 2 ==> #[trigger] crate::ops::axes_compatible(
        crate::ops::dim_from_right(out, r),
        crate::ops::dim_from_right(row, r),
    ));
    assert(out.drop_first() =~= seq![n]);
    assert(seq![n].drop_first() =~= Seq::<usize>::empty());
    assert(row.drop_first() =~= seq![n]);
    assert(shape_size(seq![n]) == (n as nat) * shape_size(Seq::<usize>::empty()));
    assert(shape_size(seq![n]) == n as nat) by (nonlinear_arith)
        requires
            shape_size(seq![n]) == (n as nat) * 1,
    ;
    assert(shape_size(out) == (b as nat) * shape_size(seq![n]));
    assert(t < shape_size(out));
    crate::ops::law_broadcast_same_shape_aligned(out, t);
    let u = crate::shape::unravel(out, t);
    assert(out.skip(2) =~= Seq::<usize>::empty());
    assert(out.skip(1) =~= seq![n]);
    assert(n > 0) by (nonlinear_arith)
        requires
            t < b * n,
    ;
    assert(u[1] == ((t / shape_size(Seq::<usize>::empty())) % (n as nat)) as usize);
    assert(t / 1 == t);
    let src = crate::ops::broadcast_source(u, row);
    assert(src[0] == 0);
    assert(src[1] == (t % (n as nat)) as usize) by {
        if n == 1 {
            assert(t % 1 == 0);
        }
    }
    let e = Seq::<usize>::empty();
    assert(src.drop_first().drop_first() =~= e);
    assert(crate::shape::flat_offset(seq![n], src.drop_first()) == (src[1] as nat) * shape_size(e)
        + crate::shape::flat_offset(e, src.drop_first().drop_first()));
    assert((src[1] as nat) * 1 == src[1] as nat);
    assert(crate::shape::flat_offset(row, src) == (src[0] as nat) * shape_size(seq![n])
        + crate::shape::flat_offset(seq![n], src.drop_first()));
}

/// Size and prefix products of a two-axis shape.
proof fn lemma_size_pair(a: usize, b: usize)
    ensures
        shape_size(seq![a, b]) == a * b,
        a * b <= usize::MAX ==> prefix_fit(seq![a, b]),
{
    let sh = seq![a, b];
    let e = Seq::<usize>::empty();
    assert(sh.drop_first() =~= seq![b]);
    assert(seq![b].drop_first() =~= e);
    assert(seq![a].drop_first() =~= e);
    assert(shape_size(seq![b]) == (b as nat) * shape_size(e));
    assert(shape_size(seq![a]) == (a as nat) * shape_size(e));
    assert(shape_size(sh) == (a as nat) * shape_size(seq![b]));
    assert((a as nat) * ((b as nat) * 1) == a * b) by (nonlinear_arith);
    assert((a as nat) * 1 == a as nat);
    assert(sh.take(0) =~= e);
    assert(sh.take(1) =~= seq![a]);
    assert(sh.take(2) =~= sh);
    if a * b <= usize::MAX {
        assert forall|k: int| 0 <= k <= sh.len() implies #[trigger] shape_size(sh.take(k)) <= usize::MAX by {
            if k == 1 {
                assert(shape_size(sh.take(1)) == a as nat);
            }
        }
    }
}

impl<T: Copy + Default> Linear<T> {
    /// The weight is `out_features` by `in_features`, the bias `1` by `out_features`, and both
    /// buffers hold one element per position.
    pub open spec fn wf(&self) -> bool {
        &&& self.weight@.data.len() == shape_size(self.weight@.shape)
        &&& self.weight@.shape == seq![self.out_features, self.in_features]
        &&& (self.bias matches Some(b) ==> b@.data.len() == shape_size(b@.shape) && b@.shape == seq![1usize, self.out_features])
    }

    /// A layer from `in_features` to `out_features`; `init` makes the weight for the shape
    /// `[out_features, in_features]` it is given, and with `bias` the layer gets a zero bias of
    /// shape `[1, out_features]` that tracks gradients.
    pub fn new<I: FnOnce(Vec<usize>) -> Tensor<T>>(in_features: usize, out_features: usize, bias: bool, init: I) -> (layer: Linear<T>)
        requires
            forall|s: Vec<usize>| #[trigger] init.requires((s,)),
        ensures
            layer.in_features == in_features,
            layer.out_features == out_features,
            exists|s: Vec<usize>| s@ == seq![out_features, in_features] && #[trigger] init.ensures((s,), layer.weight),
            bias ==> (layer.bias matches Some(b) && b@.shape == seq![1usize, out_features]
                && b@.data.len() == out_features && all_default(b@.data) && b@.requires_grad
                && b@.has_fresh_grad() && b@.op is None && b@.wf()),
            !bias ==> layer.bias is None,
    {
        let shape = vec![out_features, in_features];
        let ghost s = shape;
        let weight = init(shape);
        let b = if bias {
            proof {
                let sh = seq![1usize, out_features];
                assert(sh.take(0) =~= Seq::<usize>::empty());
                assert(sh.take(1) =~= seq![1usize]);
                assert(sh.take(2) =~= sh);
                assert(seq![1usize].drop_first() =~= Seq::<usize>::empty());
                assert(shape_size(seq![1usize]) == 1 * shape_size(Seq::<usize>::empty()));
                assert(sh.drop_first() =~= seq![out_features]);
                assert(seq![out_features].drop_first() =~= Seq::<usize>::empty());
                assert(shape_size(seq![out_features]) == (out_features as nat) * shape_size(Seq::<usize>::empty()));
                assert(shape_size(sh) == 1 * shape_size(seq![out_features]));
                assert((out_features as nat) * 1 == out_features as nat);
                assert(prefix_fit(sh));
            }
            Some(Tensor::zeros(vec![1, out_features], true))
        } else {
            None
        };
        Linear { in_features, out_features, weight, bias: b }
    }

    /// The layer applied to a batch `input` of shape `[batch, in_features]`: the product of the
    /// input with the transposed weight, `step` accumulating the products, plus the bias row
    /// (added by `plus`) where there is one.
    pub fn forward_with<S: Fn(T, T, T) -> T, P: Fn(T, T) -> T>(&self, input: &Tensor<T>, step: S, plus: P) -> (out: Tensor<T>)
        requires
            self.wf(),
            input@.shape.len() == 2,
            self.out_features > 0 ==> input@.data.len() >= input@.shape[0] * self.in_features,
            input@.shape[1] == self.in_features,
            input@.shape[0] * self.out_features <= usize::MAX,
            self.bias is Some ==> input@.shape[0] > 0,
            forall|acc: T, x: T, y: T| #[trigger] step.requires((acc, x, y)),
            forall|x: T, y: T| #[trigger] plus.requires((x, y)),
        ensures
            out@.shape == seq![input@.shape[0], self.out_features],
            out@.data.len() == input@.shape[0] * self.out_features,
            out@.op is None,
            out@.requires_grad == (input@.requires_grad || self.weight@.requires_grad || match self.bias {
                Some(b) => b@.requires_grad,
                None => false,
            }),
            out@.has_fresh_grad(),
            out@.wf(),
            forall|i: int, j: int| 0 <= i < input@.shape[0] && 0 <= j < self.out_features ==> #[trigger] linear_entry(
                step, plus,
                matrix_row(input@.data, self.in_features as nat, i),
                matrix_row(self.weight@.data, self.in_features as nat, j),
                bias_entry(self.bias, j),
                out@.data[i * self.out_features + j],
            ),
    {
        let ghost batch = input@.shape[0];
        let ghost n = self.out_features;
        let ghost k = self.in_features;
        proof {
            assert(self.weight@.shape[0] * self.weight@.shape[1] == self.weight@.data.len()) by {
                let sh = self.weight@.shape;
                assert(sh.drop_first() =~= seq![k]);
                assert(seq![k].drop_first() =~= Seq::<usize>::empty());
                assert(shape_size(seq![k]) == (k as nat) * shape_size(Seq::<usize>::empty()));
                assert((n as nat) * ((k as nat) * 1) == n * k) by (nonlinear_arith);
            }
        }
        let wt = self.weight.transpose();
        proof {
            lemma_size_pair(k, n);
        }
        let product = matmul_with(input, &wt, step);
        proof {
            assert forall|i: int, j: int| 0 <= i < batch && 0 <= j < n implies #[trigger] folds_to(
                step,
                matrix_row(input@.data, k as nat, i),
                matrix_row(self.weight@.data, k as nat, j),
                product@.data[i * n + j],
            ) by {
                lemma_transposed_col(self.weight@.data, n as nat, k as nat, j);
                assert(folds_to(
                    step,
                    matrix_row(input@.data, k as nat, i),
                    matrix_col(wt@.data, k as nat, n as nat, j),
                    product@.data[i * n + j],
                ));
            }
        }
        match &self.bias {
            None => product,
            Some(b) => {
                let ghost out = seq![batch as usize, n];
                proof {
                    assert(batch > 0);
                    assert(product@.shape == out);
                    assert(b@.shape == seq![1usize, n]);
                    lemma_size_pair(batch as usize, n);
                    lemma_size_pair(1, n);
                    if batch * n > 0 {
                        lemma_row_broadcast_offsets(batch as usize, n, 0);
                        assert(n > 0) by (nonlinear_arith)
                            requires
                                batch * n > 0,
                        ;
                        assert(all_dims_positive(out));
                        assert(all_dims_positive(seq![1usize, n]));
                    } else {
                        assert(n == 0) by (nonlinear_arith)
                            requires
                                batch * n == 0,
                                batch > 0,
                        ;
                        assert(broadcast_shape(out, seq![1usize, n]) =~= out);
                    }
                    assert(broadcast_shape(out, seq![1usize, n]) == out);
                    assert(broadcast_fits(product@, b@));
                }
                let sum = broadcast_with(&product, b, plus).unwrap();
                proof {
                    assert forall|i: int, j: int| 0 <= i < batch && 0 <= j < n implies #[trigger] linear_entry(
                        step, plus,
                        matrix_row(input@.data, k as nat, i),
                        matrix_row(self.weight@.data, k as nat, j),
                        bias_entry(self.bias, j),
                        sum@.data[i * n + j],
                    ) by {
                        let t = i * n + j;
                        assert(0 <= t < batch * n) by (nonlinear_arith)
                            requires
                                0 <= i < batch,
                                0 <= j < n,
                                t == i * n + j,
                        ;
                        lemma_row_broadcast_offsets(batch as usize, n, t as nat);
                        vstd::arithmetic::div_mod::lemma_fundamental_div_mod_converse(t, n as int, i, j);
                        let m = product@.data[t];
                        assert(folds_to(
                            step,
                            matrix_row(input@.data, k as nat, i),
                            matrix_row(self.weight@.data, k as nat, j),
                            m,
                        ));
                        assert(plus.ensures((m, b@.data[j]), sum@.data[t]));
                        assert(bias_entry(self.bias, j) == Some(b@.data[j]));
                        assert(t == i * n + j);
                        let xs = matrix_row(input@.data, k as nat, i);
                        let ws = matrix_row(self.weight@.data, k as nat, j);
                        let r = sum@.data[i * n + j];
                        assert(folds_to(step, xs, ws, m) && plus.ensures((m, b@.data[j]), r));
                        assert(exists|mm: T| folds_to(step, xs, ws, mm) && #[trigger] plus.ensures((mm, b@.data[j]), r));
                        assert(biased_sum(step, plus, xs, ws, b@.data[j], r));
                        assert(linear_entry(step, plus, xs, ws, Some(b@.data[j]), r));
                    }
                }
                sum
            },
        }
    }
}

impl<T: Copy + Default> Linear<T> {
    /// Copies of the trainable tensors: the weight, then the bias where there is one.
    pub fn parameters(&self) -> (params: Vec<Tensor<T>>)
        ensures
            params@.len() == (if self.bias is Some { 2int } else { 1int }),
            params@[0]@ == self.weight@,
            self.bias matches Some(b) ==> params@[1]@ == b@,
    {
        let mut params: Vec<Tensor<T>> = Vec::new();
        params.push(self.weight.clone());
        match &self.bias {
            Some(b) => {
                params.push(b.clone());
            },
            None => {},
        }
        params
    }

    /// Resets the gradients of the weight and of the bias.
    pub fn zero_grad(&mut self)
        ensures
            final(self).in_features == old(self).in_features,
            final(self).out_features == old(self).out_features,
            final(self).weight@.data == old(self).weight@.data,
            final(self).weight@.shape == old(self).weight@.shape,
            final(self).weight@.requires_grad == old(self).weight@.requires_grad,
            grad_zeroed(old(self).weight@.grad, final(self).weight@.grad),
            old(self).bias is None ==> final(self).bias is None,
            old(self).bias matches Some(b) ==> (final(self).bias matches Some(c) && c@.data == b@.data
                && c@.shape == b@.shape && c@.requires_grad == b@.requires_grad && grad_zeroed(b@.grad, c@.grad)),
    {
        self.weight.zero_grad();
        match &mut self.bias {
            Some(b) => {
                b.zero_grad();
            },
            None => {},
        }
    }
}

/// Entry `j` of the bias row, where there is a bias.
pub open spec fn bias_entry<T>(bias: Option<Tensor<T>>, j: int) -> Option<T> {
    match bias {
        Some(b) => Some(b@.data[j]),
        None => None,
    }
}

/// An output entry of a linear layer: the accumulated products of `xs` and `ws` from zero,
/// plus the bias entry `bias` where there is one.
pub open spec fn linear_entry<T: Default, S: Fn(T, T, T) -> T, P: Fn(T, T) -> T>(
    step: S,
    plus: P,
    xs: Seq<T>,
    ws: Seq<T>,
    bias: Option<T>,
    r: T,
) -> bool {
    match bias {
        None => folds_to(step, xs, ws, r),
        Some(c) => biased_sum(step, plus, xs, ws, c, r),
    }
}

/// `r` is `plus` of the accumulated products of `xs` and `ws` and the bias entry `c`.
pub open spec fn biased_sum<T: Default, S: Fn(T, T, T) -> T, P: Fn(T, T) -> T>(
    step: S,
    plus: P,
    xs: Seq<T>,
    ws: Seq<T>,
    c: T,
    r: T,
) -> bool {
    exists|m: T| folds_to(step, xs, ws, m) && #[trigger] plus.ensures((m, c), r)
}

/// A trainable parameter: a tensor that tracks gradients.
pub struct Parameter<T> {
    pub value: Tensor<T>,
}

impl<T> Parameter<T> {
    /// Wraps `tensor`, which must track gradients.
    pub fn new(tensor: Tensor<T>) -> (p: Parameter<T>)
        requires
            tensor.requires_grad,
        ensures
            p.value == tensor,
    {
        Parameter { value: tensor }
    }
}

/// The deterministic dropout pattern applied in training: every element at a position that is a
/// multiple of 4 is dropped to zero, every other element is rescaled by `scale` (by `1 / (1 - p)`).
/// Gradient and operation are kept.
pub fn dropout_apply<T: Copy + Default, F: Fn(T) -> T>(input: &Tensor<T>, scale: F) -> (out: Tensor<T>)
    requires
        forall|x: T| #[trigger] scale.requires((x,)),
    ensures
        out@.shape == input@.shape,
        out@.grad == input@.grad,
        out@.requires_grad == input@.requires_grad,
        out@.op == input@.op,
        out@.data.len() == input@.data.len(),
        forall|i: int| 0 <= i < input@.data.len() ==> #[trigger] dropout_kept(scale, i, input@.data[i], out@.data[i]),
{
    let mut out = input.clone();
    let zero = T::default();
    let mut data: Vec<T> = Vec::new();
    let mut i: usize = 0;
    while i < input.data.len()
        invariant
            i <= input@.data.len(),
            data@.len() == i,
            is_default(zero),
            forall|x: T| #[trigger] scale.requires((x,)),
            forall|j: int| 0 <= j < i ==> #[trigger] dropout_kept(scale, j, input@.data[j], data@[j]),
        decreases input@.data.len() - i,
    {
        let x = input.data[i];
        let v = if i % 4 != 0 { scale(x) } else { zero };
        data.push(v);
        i += 1;
    }
    out.data = data;
    out
}

/// Dropout with probability `p`, in training or in evaluation mode.
pub struct Dropout<T> {
    pub p: T,
    pub training: bool,
}

impl<T: Copy + Default> Dropout<T> {
    /// Dropout with probability `p`, in training mode. The probability must lie in `[0, 1)`;
    /// `is_probability` says of a value whether it does (`0 <= p < 1` for numbers), and must
    /// say so of `p`.
    pub fn new<V: Fn(T) -> bool>(p: T, is_probability: V) -> (d: Dropout<T>)
        requires
            forall|ok: bool| #[trigger] is_probability.ensures((p,), ok) ==> ok,
        ensures
            d.p == p,
            d.training,
    {
        Dropout { p, training: true }
    }

    /// Switches to training mode.
    pub fn train(&mut self)
        ensures
            final(self).training,
            final(self).p == old(self).p,
    {
        self.training = true;
    }

    /// Switches to evaluation mode.
    pub fn eval(&mut self)
        ensures
            !final(self).training,
            final(self).p == old(self).p,
    {
        self.training = false;
    }

    /// The input unchanged in evaluation mode or where `is_zero` says the probability is zero;
    /// otherwise the dropout pattern of `dropout_apply`, kept elements scaled by `scale`
    /// (`1 / (1 - p)` for numbers). `is_zero` is asked once, and its answer decides.
    pub fn forward_with<Z: Fn(T) -> bool, F: Fn(T) -> T>(&self, input: &Tensor<T>, is_zero: Z, scale: F) -> (out: Tensor<T>)
        requires
            is_zero.requires((self.p,)),
            forall|x: T| #[trigger] scale.requires((x,)),
        ensures
            exists|zero: bool| #[trigger] is_zero.ensures((self.p,), zero) && dropped_out(self.training && !zero, scale, input@, out@),
    {
        let zero = is_zero(self.p);
        let active = self.training && !zero;
        let out = if !active {
            input.clone()
        } else {
            dropout_apply(input, scale)
        };
        proof {
            assert(is_zero.ensures((self.p,), zero) && dropped_out(active, scale, input@, out@));
        }
        out
    }
}

/// `out` is `input` unchanged where dropout is not `active`; otherwise the dropout pattern of
/// `dropout_apply` over it, gradient and operation kept.
pub open spec fn dropped_out<T: Default, F: Fn(T) -> T>(active: bool, scale: F, input: TensorView<T>, out: TensorView<T>) -> bool {
    if !active {
        out == input
    } else {
        &&& out.shape == input.shape
        &&& out.grad == input.grad
        &&& out.requires_grad == input.requires_grad
        &&& out.op == input.op
        &&& out.data.len() == input.data.len()
        &&& forall|i: int| 0 <= i < input.data.len() ==> #[trigger] dropout_kept(scale, i, input.data[i], out.data[i])
    }
}


/// Element at position `i` after dropout: zero at multiples of 4, `scale` of the element elsewhere.
pub open spec fn dropout_kept<T: Default, F: Fn(T) -> T>(scale: F, i: int, x: T, r: T) -> bool {
    if i % 4 != 0 {
        scale.ensures((x,), r)
    } else {
        is_default(r)
    }
}

/// The rectifier keeps an element the positivity test accepts and puts zero in place of one
/// it rejects.
pub proof fn law_relu_entry<T: Default, P: Fn(T) -> bool>(is_positive: P, x: T, r: T)
    requires
        rectified(is_positive, x, r),
    ensures
        r != x ==> is_positive.ensures((x,), false) && is_default(r),
        !is_positive.ensures((x,), false) ==> r == x,
        !is_positive.ensures((x,), true) ==> is_default(r),
{
}

/// The dropout pattern zeroes the elements at positions divisible by four and scales all
/// the others.
pub proof fn law_dropout_entry<T: Default, F: Fn(T) -> T>(scale: F, i: int, x: T, r: T)
    requires
        dropout_kept(scale, i, x, r),
    ensures
        i % 4 == 0 ==> is_default(r),
        i % 4 != 0 ==> scale.ensures((x,), r),
{
}

} // verus!
