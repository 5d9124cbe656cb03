//! Back-propagation over a computation graph: each variable passes its gradient on to the
//! operands it was computed from, by the derivative rule of its operation. Element arithmetic
//! is supplied by the caller, so the rules are stated over what those closures return.
use vstd::prelude::*;
use crate::autograd::{listed, operands, reaches, topologically_ordered, walk, Graph, Operation, Variable};
use crate::ops::{broadcast_offset, broadcast_source, map_indices_for_broadcast};
use crate::shape::{all_dims_positive, strides_fit, unravel, unravel_index};
use crate::tensor::{copy_slice, Tensor, TensorView};

verus! {

/// The one-operand operations, as their gradient rule sees them.
#[derive(Clone, Copy, Debug)]
pub enum UnaryRule {
    Pow,
    Tanh,
    Relu,
    Sigmoid,
}

/// Variable `x` tracks gradients and has a gradient buffer to collect them in.
pub open spec fn collects<T>(nodes: Seq<Variable<T>>, x: int) -> bool {
    nodes[x].requires_grad && nodes[x].grad is Some
}

/// `after` is `before` combined with some term `t` for which `term(i, t)` holds.
pub open spec fn gained<T, C: Fn(T, T) -> T>(term: spec_fn(int, T) -> bool, combine: C, i: int, before: T, after: T) -> bool {
    exists|t: T| #![trigger combine.ensures((before, t), after)] term(i, t) && combine.ensures((before, t), after)
}

/// Variable `after` is `before` with the first `n` entries of its gradient each combined with
/// a term, where it collects gradients; otherwise it is `before` unchanged.
pub open spec fn receives<T, C: Fn(T, T) -> T>(
    before: Variable<T>,
    after: Variable<T>,
    n: nat,
    term: spec_fn(int, T) -> bool,
    combine: C,
) -> bool {
    &&& after.data == before.data
    &&& after.requires_grad == before.requires_grad
    &&& after.operation == before.operation
    &&& after.id == before.id
    &&& match before.grad {
        Some(g) => if before.requires_grad {
            &&& after.grad matches Some(h)
            &&& h@ == (TensorView { data: h@.data, ..g@ })
            &&& h@.data.len() == g@.data.len()
            &&& forall|i: int| 0 <= i < n ==> #[trigger] gained(term, combine, i, g@.data[i], h@.data[i])
            &&& forall|i: int| n <= i < g@.data.len() ==> #[trigger] h@.data[i] == g@.data[i]
        } else {
            after.grad == before.grad
        },
        None => after.grad is None,
    }
}

/// `after` is `before` with variable `x` receiving `n` terms into its gradient, every other
/// variable unchanged.
pub open spec fn accumulated<T, C: Fn(T, T) -> T>(
    before: Seq<Variable<T>>,
    x: int,
    n: nat,
    term: spec_fn(int, T) -> bool,
    combine: C,
    after: Seq<Variable<T>>,
) -> bool {
    &&& after.len() == before.len()
    &&& forall|i: int| 0 <= i < before.len() && i != x ==> #[trigger] after[i] == before[i]
    &&& receives(before[x], after[x], n, term, combine)
}

/// `after` differs from `before` at most in the values of gradient entries: same variables,
/// data, operations and flags, and gradient buffers of the same shapes and lengths.
pub open spec fn same_frame<T>(before: Seq<Variable<T>>, after: Seq<Variable<T>>) -> bool {
    &&& after.len() == before.len()
    &&& forall|i: int| 0 <= i < before.len() ==> {
        &&& #[trigger] after[i].data == before[i].data
        &&& after[i].requires_grad == before[i].requires_grad
        &&& after[i].operation == before[i].operation
        &&& after[i].id == before[i].id
        &&& (after[i].grad is Some <==> before[i].grad is Some)
        &&& (before[i].grad matches Some(g) ==> (after[i].grad matches Some(h)
            && h@.shape == g@.shape && h@.data.len() == g@.data.len()))
    }
}

pub proof fn lemma_same_frame_trans<T>(a: Seq<Variable<T>>, b: Seq<Variable<T>>, c: Seq<Variable<T>>)
    requires
        same_frame(a, b),
        same_frame(b, c),
    ensures
        same_frame(a, c),
{
    assert forall|i: int| 0 <= i < a.len() implies {
        &&& #[trigger] c[i].data == a[i].data
        &&& c[i].requires_grad == a[i].requires_grad
        &&& c[i].operation == a[i].operation
        &&& c[i].id == a[i].id
        &&& (c[i].grad is Some <==> a[i].grad is Some)
        &&& (a[i].grad matches Some(g) ==> (c[i].grad matches Some(h)
            && h@.shape == g@.shape && h@.data.len() == g@.data.len()))
    } by {
        assert(b[i].data == a[i].data);
        assert(c[i].data == b[i].data);
    }
}

/// The value that position `i` of a result of shape `out` reads from operand `t` under broadcasting.
pub open spec fn read_at<T>(t: TensorView<T>, out: Seq<usize>, i: int) -> T {
    t.data[broadcast_offset(t.shape, out, i as nat) as int]
}

/// The reads that broadcasting over positions of gradient `g` makes in operand `t` stay in
/// range: where there is any, `g` can be unravelled and `t`'s strides fit, and every offset
/// read lies in `t`'s data.
pub open spec fn reads_fit<T>(g: TensorView<T>, t: TensorView<T>) -> bool {
    &&& g.data.len() > 0 ==> all_dims_positive(g.shape) && strides_fit(t.shape)
    &&& forall|i: int| 0 <= i < g.data.len() ==> #[trigger] broadcast_offset(t.shape, g.shape, i as nat) < t.data.len()
}

/// Term `i` is gradient entry `i` itself.
pub open spec fn passed_on<T>(g: TensorView<T>) -> spec_fn(int, T) -> bool {
    |i: int, t: T| t == g.data[i]
}

/// Term `i` is `f` of gradient entry `i` and what position `i` reads from `other`.
pub open spec fn scaled_by<T, F: Fn(T, T) -> T>(f: F, g: TensorView<T>, other: TensorView<T>) -> spec_fn(int, T) -> bool {
    |i: int, t: T| f.ensures((g.data[i], read_at(other, g.shape, i)), t)
}

/// Term `i` is gradient entry `i` times what position `i` reads from `a`, divided by the square
/// of what it reads from `b`.
pub open spec fn quotient_term<T, M: Fn(T, T) -> T, D: Fn(T, T) -> T>(
    times: M,
    divide: D,
    g: TensorView<T>,
    a: TensorView<T>,
    b: TensorView<T>,
) -> spec_fn(int, T) -> bool {
    |i: int, t: T| exists|p: T, q: T| #![trigger times.ensures((g.data[i], read_at(a, g.shape, i)), p), times.ensures((read_at(b, g.shape, i), read_at(b, g.shape, i)), q)]
        times.ensures((g.data[i], read_at(a, g.shape, i)), p)
        && times.ensures((read_at(b, g.shape, i), read_at(b, g.shape, i)), q)
        && divide.ensures((p, q), t)
}

/// Term `i` is what the rule `unary` of kind `kind` gives for gradient entry `i` and `x[i]`.
pub open spec fn unary_term<T, U: Fn(UnaryRule, T, T) -> T>(unary: U, kind: UnaryRule, g: TensorView<T>, x: Seq<T>) -> spec_fn(int, T) -> bool {
    |i: int, t: T| unary.ensures((kind, g.data[i], x[i]), t)
}

/// The value that position `i` of `g` reads from `other` under broadcasting.
fn read_broadcast<T: Copy>(g: &Tensor<T>, other: &Tensor<T>, i: usize) -> (x: T)
    requires
        reads_fit(g@, other@),
        i < g@.data.len(),
    ensures
        x == read_at(other@, g@.shape, i as int),
{
    let idx = unravel_index(g.shape.as_slice(), i);
    let src = map_indices_for_broadcast(idx.as_slice(), other.shape.as_slice());
    proof {
        let ii: int = i as int;
        assert(src@ == broadcast_source(unravel(g@.shape, ii as nat), other@.shape));
        assert(broadcast_offset(other@.shape, g@.shape, ii as nat) < other@.data.len());
    }
    other.get_at(src.as_slice())
}

/// `f` of each gradient entry and the value its position reads from `other`.
fn scaled_terms<T: Copy, F: Fn(T, T) -> T>(g: &Tensor<T>, other: &Tensor<T>, f: &F) -> (terms: Vec<T>)
    requires
        reads_fit(g@, other@),
        forall|a: T, b: T| #[trigger] f.requires((a, b)),
    ensures
        terms@.len() == g@.data.len(),
        forall|i: int| 0 <= i < terms@.len() ==> #[trigger] (scaled_by(*f, g@, other@))(i, terms@[i]),
{
    let mut terms: Vec<T> = Vec::new();
    let mut i: usize = 0;
    while i < g.data.len()
        invariant
            i <= g@.data.len(),
            terms@.len() == i,
            reads_fit(g@, other@),
            forall|a: T, b: T| #[trigger] f.requires((a, b)),
            forall|j: int| 0 <= j < i ==> #[trigger] (scaled_by(*f, g@, other@))(j, terms@[j]),
        decreases g@.data.len() - i,
    {
        let x = read_broadcast(g, other, i);
        terms.push(f(g.data[i], x));
        i += 1;
    }
    terms
}

/// For each gradient entry, the entry times the value read from `a`, divided by the square of
/// the value read from `b`.
fn quotient_terms<T: Copy, M: Fn(T, T) -> T, D: Fn(T, T) -> T>(g: &Tensor<T>, a: &Tensor<T>, b: &Tensor<T>, times: &M, divide: &D) -> (terms: Vec<T>)
    requires
        reads_fit(g@, a@),
        reads_fit(g@, b@),
        forall|x: T, y: T| #[trigger] times.requires((x, y)),
        forall|x: T, y: T| #[trigger] divide.requires((x, y)),
    ensures
        terms@.len() == g@.data.len(),
        forall|i: int| 0 <= i < terms@.len() ==> #[trigger] (quotient_term(*times, *divide, g@, a@, b@))(i, terms@[i]),
{
    let mut terms: Vec<T> = Vec::new();
    let mut i: usize = 0;
    while i < g.data.len()
        invariant
            i <= g@.data.len(),
            terms@.len() == i,
            reads_fit(g@, a@),
            reads_fit(g@, b@),
            forall|x: T, y: T| #[trigger] times.requires((x, y)),
            forall|x: T, y: T| #[trigger] divide.requires((x, y)),
            forall|j: int| 0 <= j < i ==> #[trigger] (quotient_term(*times, *divide, g@, a@, b@))(j, terms@[j]),
        decreases g@.data.len() - i,
    {
        let a_val = read_broadcast(g, a, i);
        let b_val = read_broadcast(g, b, i);
        let p = times(g.data[i], a_val);
        let q = times(b_val, b_val);
        let t = divide(p, q);
        proof {
            assert(times.ensures((g@.data[i as int], read_at(a@, g@.shape, i as int)), p));
            assert(times.ensures((read_at(b@, g@.shape, i as int), read_at(b@, g@.shape, i as int)), q));
        }
        terms.push(t);
        i += 1;
    }
    terms
}

/// The rule `unary` of kind `kind` applied to each gradient entry and the matching element of `x`.
fn unary_terms<T: Copy, U: Fn(UnaryRule, T, T) -> T>(kind: UnaryRule, g: &Tensor<T>, x: &Vec<T>, unary: &U) -> (terms: Vec<T>)
    requires
        g@.data.len() <= x@.len(),
        forall|k: UnaryRule, a: T, b: T| #[trigger] unary.requires((k, a, b)),
    ensures
        terms@.len() == g@.data.len(),
        forall|i: int| 0 <= i < terms@.len() ==> #[trigger] (unary_term(*unary, kind, g@, x@))(i, terms@[i]),
{
    let mut terms: Vec<T> = Vec::new();
    let mut i: usize = 0;
    while i < g.data.len()
        invariant
            i <= g@.data.len(),
            g@.data.len() <= x@.len(),
            terms@.len() == i,
            forall|k: UnaryRule, a: T, b: T| #[trigger] unary.requires((k, a, b)),
            forall|j: int| 0 <= j < i ==> #[trigger] (unary_term(*unary, kind, g@, x@))(j, terms@[j]),
        decreases g@.data.len() - i,
    {
        terms.push(unary(kind, g.data[i], x[i]));
        i += 1;
    }
    terms
}

/// Combines `terms[i]` into entry `i` of the gradient of variable `x`, where it collects gradients.
fn accumulate_into<T: Copy, C: Fn(T, T) -> T>(
    graph: &mut Graph<T>,
    x: usize,
    terms: &Vec<T>,
    Ghost(term): Ghost<spec_fn(int, T) -> bool>,
    combine: &C,
)
    requires
        old(graph).wf(),
        x < old(graph).nodes@.len(),
        collects(old(graph).nodes@, x as int) ==> old(graph).nodes@[x as int].grad->0@.data.len() >= terms@.len(),
        forall|i: int| 0 <= i < terms@.len() ==> #[trigger] term(i, terms@[i]),
        forall|a: T, b: T| #[trigger] combine.requires((a, b)),
    ensures
        final(graph).wf(),
        accumulated(old(graph).nodes@, x as int, terms@.len(), term, *combine, final(graph).nodes@),
        same_frame(old(graph).nodes@, final(graph).nodes@),
{
    let ghost old_nodes = graph.nodes@;
    let n = terms.len();
    let node = &mut graph.nodes[x];
    if node.requires_grad {
        match &mut node.grad {
            Some(g) => {
                let ghost g0 = g@;
                let mut i: usize = 0;
                while i < n
                    invariant
                        n == terms@.len(),
                        n <= g0.data.len(),
                        i <= n,
                        g@ == (TensorView { data: g@.data, ..g0 }),
                        g@.data.len() == g0.data.len(),
                        forall|j: int| 0 <= j < terms@.len() ==> #[trigger] term(j, terms@[j]),
                        forall|a: T, b: T| #[trigger] combine.requires((a, b)),
                        forall|j: int| 0 <= j < i ==> #[trigger] gained(term, *combine, j, g0.data[j], g@.data[j]),
                        forall|j: int| i <= j < g0.data.len() ==> #[trigger] g@.data[j] == g0.data[j],
                    decreases n - i,
                {
                    let before = g.data[i];
                    let t = terms[i];
                    let after = combine(before, t);
                    g.set(i, after);
                    proof {
                        assert(term(i as int, t) && combine.ensures((before, t), after));
                        assert(gained(term, *combine, i as int, g0.data[i as int], g@.data[i as int]));
                    }
                    i += 1;
                }
            },
            None => {},
        }
    }
    proof {
        assert forall|i: int| 0 <= i < graph.nodes@.len() implies {
            &&& #[trigger] graph.nodes@[i].id == i
            &&& forall|j: int| 0 <= j < operands(graph.nodes@[i].operation).len()
                ==> #[trigger] operands(graph.nodes@[i].operation)[j] < i
        } by {
            assert(old_nodes[i].id == i);
        }
    }
}

/// Where `x` collects gradients, its buffer holds at least `n` entries.
pub open spec fn buffer_fits<T>(nodes: Seq<Variable<T>>, x: int, n: nat) -> bool {
    collects(nodes, x) ==> nodes[x].grad->0@.data.len() >= n
}

/// Passing the gradient of `v` on stays in range: every operand that collects gradients has a
/// buffer at least as long as `v`'s gradient, and the values the rule reads exist.
pub open spec fn propagation_fits<T>(nodes: Seq<Variable<T>>, v: int) -> bool {
    match nodes[v].grad {
        None => true,
        Some(gt) => {
            let g = gt@;
            let n = g.data.len();
            match nodes[v].operation {
                Operation::Add(a, b) => buffer_fits(nodes, a as int, n) && buffer_fits(nodes, b as int, n),
                Operation::Sub(a, b) => buffer_fits(nodes, a as int, n) && buffer_fits(nodes, b as int, n),
                Operation::Mul(a, b) => {
                    &&& buffer_fits(nodes, a as int, n)
                    &&& buffer_fits(nodes, b as int, n)
                    &&& collects(nodes, a as int) ==> reads_fit(g, nodes[b as int].data@)
                    &&& collects(nodes, b as int) ==> reads_fit(g, nodes[a as int].data@)
                },
                Operation::Div(a, b) => {
                    &&& buffer_fits(nodes, a as int, n)
                    &&& buffer_fits(nodes, b as int, n)
                    &&& collects(nodes, a as int) ==> reads_fit(g, nodes[b as int].data@)
                    &&& collects(nodes, b as int) ==> reads_fit(g, nodes[a as int].data@) && reads_fit(g, nodes[b as int].data@)
                },
                Operation::Pow(a, _) => buffer_fits(nodes, a as int, n) && (collects(nodes, a as int) ==> n <= nodes[v].data@.data.len()),
                Operation::Tanh(a) => buffer_fits(nodes, a as int, n) && (collects(nodes, a as int) ==> n <= nodes[v].data@.data.len()),
                Operation::Relu(a) => buffer_fits(nodes, a as int, n) && (collects(nodes, a as int) ==> n <= nodes[a as int].data@.data.len()),
                Operation::Sigmoid(a) => buffer_fits(nodes, a as int, n) && (collects(nodes, a as int) ==> n <= nodes[v].data@.data.len()),
                Operation::Leaf => true,
            }
        },
    }
}

/// `after` is `before` once variable `v` has passed its gradient `g` on to its operands, each
/// operand that collects gradients taking in one term per entry of `g`:
/// - `Add(a, b)`: `g[i]` is added (`plus`) into both;
/// - `Sub(a, b)`: `g[i]` is added into `a` and subtracted (`minus`) from `b`;
/// - `Mul(a, b)`: `a` takes in `g[i]` times what position `i` reads from `b`, and `b` likewise from `a`;
/// - `Div(a, b)`: `a` takes in `g[i]` divided by what it reads from `b`; from `b` is subtracted
///   `g[i]` times what it reads from `a`, divided by the square of what it reads from `b`;
/// - `Pow`, `Tanh`, `Sigmoid`: the operand takes in the rule applied to `g[i]` and `v`'s own element `i`;
/// - `Relu`: the operand takes in the rule applied to `g[i]` and its own element `i`.
/// The first operand takes in its terms before the second, which matters where they are the
/// same variable. A variable without a gradient, or a leaf, passes nothing on.
pub open spec fn propagated<T, A: Fn(T, T) -> T, S: Fn(T, T) -> T, M: Fn(T, T) -> T, D: Fn(T, T) -> T, U: Fn(UnaryRule, T, T) -> T>(
    before: Seq<Variable<T>>,
    v: int,
    plus: A,
    minus: S,
    times: M,
    divide: D,
    unary: U,
    after: Seq<Variable<T>>,
) -> bool {
    match before[v].grad {
        None => after == before,
        Some(gt) => {
            let g = gt@;
            let n = g.data.len();
            match before[v].operation {
                Operation::Add(a, b) => exists|mid: Seq<Variable<T>>|
                    #[trigger] accumulated(before, a as int, n, passed_on(g), plus, mid)
                    && accumulated(mid, b as int, n, passed_on(g), plus, after),
                Operation::Sub(a, b) => exists|mid: Seq<Variable<T>>|
                    #[trigger] accumulated(before, a as int, n, passed_on(g), plus, mid)
                    && accumulated(mid, b as int, n, passed_on(g), minus, after),
                Operation::Mul(a, b) => exists|mid: Seq<Variable<T>>|
                    #[trigger] accumulated(before, a as int, n, scaled_by(times, g, before[b as int].data@), plus, mid)
                    && accumulated(mid, b as int, n, scaled_by(times, g, before[a as int].data@), plus, after),
                Operation::Div(a, b) => exists|mid: Seq<Variable<T>>|
                    #[trigger] accumulated(before, a as int, n, scaled_by(divide, g, before[b as int].data@), plus, mid)
                    && accumulated(mid, b as int, n, quotient_term(times, divide, g, before[a as int].data@, before[b as int].data@), minus, after),
                Operation::Pow(a, _) => accumulated(before, a as int, n, unary_term(unary, UnaryRule::Pow, g, before[v].data@.data), plus, after),
                Operation::Tanh(a) => accumulated(before, a as int, n, unary_term(unary, UnaryRule::Tanh, g, before[v].data@.data), plus, after),
                Operation::Relu(a) => accumulated(before, a as int, n, unary_term(unary, UnaryRule::Relu, g, before[a as int].data@.data), plus, after),
                Operation::Sigmoid(a) => accumulated(before, a as int, n, unary_term(unary, UnaryRule::Sigmoid, g, before[v].data@.data), plus, after),
                Operation::Leaf => after == before,
            }
        },
    }
}

/// Passes the gradient of variable `v` on to its operands by the derivative rule of the
/// operation that produced it (see `propagated`): `plus`, `minus`, `times` and `divide` are the
/// element arithmetic, and `unary` gives, for a one-operand rule, the term for a gradient entry
/// and the element the rule reads (`g * (1 - y * y)` for `Tanh` of output `y`, `g` or zero by the
/// sign of input `x` for `Relu`, and so on).
pub fn propagate_with<T: Copy, A: Fn(T, T) -> T, S: Fn(T, T) -> T, M: Fn(T, T) -> T, D: Fn(T, T) -> T, U: Fn(UnaryRule, T, T) -> T>(
    graph: &mut Graph<T>,
    v: usize,
    plus: A,
    minus: S,
    times: M,
    divide: D,
    unary: U,
)
    requires
        old(graph).wf(),
        v < old(graph).nodes@.len(),
        propagation_fits(old(graph).nodes@, v as int),
        forall|x: T, y: T| #[trigger] plus.requires((x, y)),
        forall|x: T, y: T| #[trigger] minus.requires((x, y)),
        forall|x: T, y: T| #[trigger] times.requires((x, y)),
        forall|x: T, y: T| #[trigger] divide.requires((x, y)),
        forall|k: UnaryRule, x: T, y: T| #[trigger] unary.requires((k, x, y)),
    ensures
        final(graph).wf(),
        propagated(old(graph).nodes@, v as int, plus, minus, times, divide, unary, final(graph).nodes@),
        same_frame(old(graph).nodes@, final(graph).nodes@),
        forall|i: int| 0 <= i < old(graph).nodes@.len() && !operands(old(graph).nodes@[v as int].operation).contains(i as usize)
            ==> #[trigger] final(graph).nodes@[i] == old(graph).nodes@[i],
{
    let ghost before = graph.nodes@;
    let gt = match &graph.nodes[v].grad {
        Some(g) => g.clone(),
        None => {
            return;
        },
    };
    let ghost g = gt@;
    let ghost n = g.data.len();
    proof {
        assert(before[v as int].id == v);
    }
    match graph.nodes[v].operation {
        Operation::Add(a, b) => {
            proof {
                assert(operands(before[v as int].operation)[0] < v);
                assert(operands(before[v as int].operation)[1] < v);
            }
            let terms = copy_slice(gt.data.as_slice());
            accumulate_into(graph, a, &terms, Ghost(passed_on(g)), &plus);
            let ghost mid = graph.nodes@;
            accumulate_into(graph, b, &terms, Ghost(passed_on(g)), &plus);
            proof {
                assert(accumulated(before, a as int, n, passed_on(g), plus, mid));
                lemma_same_frame_trans(before, mid, graph.nodes@);
            }
        },
        Operation::Sub(a, b) => {
            proof {
                assert(operands(before[v as int].operation)[0] < v);
                assert(operands(before[v as int].operation)[1] < v);
            }
            let terms = copy_slice(gt.data.as_slice());
            accumulate_into(graph, a, &terms, Ghost(passed_on(g)), &plus);
            let ghost mid = graph.nodes@;
            accumulate_into(graph, b, &terms, Ghost(passed_on(g)), &minus);
            proof {
                assert(accumulated(before, a as int, n, passed_on(g), plus, mid));
                lemma_same_frame_trans(before, mid, graph.nodes@);
            }
        },
        Operation::Mul(a, b) => {
            proof {
                assert(operands(before[v as int].operation)[0] < v);
                assert(operands(before[v as int].operation)[1] < v);
            }
            let ta = if graph.nodes[a].requires_grad && graph.nodes[a].grad.is_some() {
                scaled_terms(&gt, &graph.nodes[b].data, &times)
            } else {
                Vec::new()
            };
            let tb = if graph.nodes[b].requires_grad && graph.nodes[b].grad.is_some() {
                scaled_terms(&gt, &graph.nodes[a].data, &times)
            } else {
                Vec::new()
            };
            accumulate_into(graph, a, &ta, Ghost(scaled_by(times, g, before[b as int].data@)), &plus);
            let ghost mid = graph.nodes@;
            accumulate_into(graph, b, &tb, Ghost(scaled_by(times, g, before[a as int].data@)), &plus);
            proof {
                assert(accumulated(before, a as int, n, scaled_by(times, g, before[b as int].data@), plus, mid));
                lemma_same_frame_trans(before, mid, graph.nodes@);
            }
        },
        Operation::Div(a, b) => {
            proof {
                assert(operands(before[v as int].operation)[0] < v);
                assert(operands(before[v as int].operation)[1] < v);
            }
            let ta = if graph.nodes[a].requires_grad && graph.nodes[a].grad.is_some() {
                scaled_terms(&gt, &graph.nodes[b].data, &divide)
            } else {
                Vec::new()
            };
            let tb = if graph.nodes[b].requires_grad && graph.nodes[b].grad.is_some() {
                quotient_terms(&gt, &graph.nodes[a].data, &graph.nodes[b].data, &times, &divide)
            } else {
                Vec::new()
            };
            accumulate_into(graph, a, &ta, Ghost(scaled_by(divide, g, before[b as int].data@)), &plus);
            let ghost mid = graph.nodes@;
            accumulate_into(
                graph,
                b,
                &tb,
                Ghost(quotient_term(times, divide, g, before[a as int].data@, before[b as int].data@)),
                &minus,
            );
            proof {
                assert(accumulated(before, a as int, n, scaled_by(divide, g, before[b as int].data@), plus, mid));
                lemma_same_frame_trans(before, mid, graph.nodes@);
            }
        },
        Operation::Pow(a, _) => {
            proof {
                assert(operands(before[v as int].operation)[0] < v);
            }
            let t = if graph.nodes[a].requires_grad && graph.nodes[a].grad.is_some() {
                unary_terms(UnaryRule::Pow, &gt, &graph.nodes[v].data.data, &unary)
            } else {
                Vec::new()
            };
            accumulate_into(graph, a, &t, Ghost(unary_term(unary, UnaryRule::Pow, g, before[v as int].data@.data)), &plus);
        },
        Operation::Tanh(a) => {
            proof {
                assert(operands(before[v as int].operation)[0] < v);
            }
            let t = if graph.nodes[a].requires_grad && graph.nodes[a].grad.is_some() {
                unary_terms(UnaryRule::Tanh, &gt, &graph.nodes[v].data.data, &unary)
            } else {
                Vec::new()
            };
            accumulate_into(graph, a, &t, Ghost(unary_term(unary, UnaryRule::Tanh, g, before[v as int].data@.data)), &plus);
        },
        Operation::Relu(a) => {
            proof {
                assert(operands(before[v as int].operation)[0] < v);
            }
            let t = if graph.nodes[a].requires_grad && graph.nodes[a].grad.is_some() {
                unary_terms(UnaryRule::Relu, &gt, &graph.nodes[a].data.data, &unary)
            } else {
                Vec::new()
            };
            accumulate_into(graph, a, &t, Ghost(unary_term(unary, UnaryRule::Relu, g, before[a as int].data@.data)), &plus);
        },
        Operation::Sigmoid(a) => {
            proof {
                assert(operands(before[v as int].operation)[0] < v);
            }
            let t = if graph.nodes[a].requires_grad && graph.nodes[a].grad.is_some() {
                unary_terms(UnaryRule::Sigmoid, &gt, &graph.nodes[v].data.data, &unary)
            } else {
                Vec::new()
            };
            accumulate_into(graph, a, &t, Ghost(unary_term(unary, UnaryRule::Sigmoid, g, before[v as int].data@.data)), &plus);
        },
        Operation::Leaf => {},
    }
}

/// Changes that keep the gradient buffers' shapes and lengths keep propagation in range.
pub proof fn lemma_fits_kept<T>(before: Seq<Variable<T>>, after: Seq<Variable<T>>, v: int)
    requires
        same_frame(before, after),
        0 <= v < before.len(),
        forall|j: int| 0 <= j < operands(before[v].operation).len() ==> #[trigger] operands(before[v].operation)[j] < v,
        propagation_fits(before, v),
    ensures
        propagation_fits(after, v),
{
    assert(after[v].data == before[v].data);
    let ops = operands(before[v].operation);
    if ops.len() > 0 {
        assert(after[ops[0] as int].data == before[ops[0] as int].data);
    }
    if ops.len() > 1 {
        assert(after[ops[1] as int].data == before[ops[1] as int].data);
    }
}

/// Reaching is transitive.
pub proof fn lemma_reaches_trans<T>(nodes: Seq<Variable<T>>, a: int, b: int, c: int)
    requires
        reaches(nodes, a, b),
        reaches(nodes, b, c),
    ensures
        reaches(nodes, a, c),
    decreases a,
{
    if a != b {
        let ops = operands(nodes[a].operation);
        if ops.len() > 0 && ops[0] < a && reaches(nodes, ops[0] as int, b) {
            lemma_reaches_trans(nodes, ops[0] as int, b, c);
        } else {
            lemma_reaches_trans(nodes, ops[1] as int, b, c);
        }
    }
}

/// In a well-formed graph a variable reaches each of its operands.
proof fn lemma_reaches_operand<T>(nodes: Seq<Variable<T>>, v: int, j: int)
    requires
        0 <= v < nodes.len(),
        0 <= j < operands(nodes[v].operation).len(),
        operands(nodes[v].operation)[j] < v,
    ensures
        reaches(nodes, v, operands(nodes[v].operation)[j] as int),
{
    let ops = operands(nodes[v].operation);
    let o = ops[j] as int;
    assert(reaches(nodes, o, o));
    if j == 0 {
        assert(reaches(nodes, v, o));
    } else {
        assert(ops.len() > 1);
        assert(reaches(nodes, v, o));
    }
}

/// `after` is `before` with the gradient of `root` seeded as `Graph::seed_gradient` seeds it.
pub open spec fn seeded_nodes<T>(
    before: Seq<Variable<T>>,
    root: int,
    grad_output: Option<&Tensor<T>>,
    one: T,
    after: Seq<Variable<T>>,
) -> bool {
    &&& after.len() == before.len()
    &&& forall|i: int| 0 <= i < before.len() && i != root ==> #[trigger] after[i] == before[i]
    &&& after[root].data == before[root].data
    &&& after[root].requires_grad == before[root].requires_grad
    &&& after[root].operation == before[root].operation
    &&& after[root].id == before[root].id
    &&& match before[root].grad {
        None => after[root].grad is None,
        Some(g) => after[root].grad matches Some(h) && h@ == (TensorView {
            data: crate::autograd::seeded(g@.data, grad_output, one),
            ..g@
        }),
    }
}

/// `states` runs through propagation along `order` taken from its end: each state is the one
/// before it once the variable `order` lists in that place from the end has passed its gradient on.
pub open spec fn back_propagated<T, A: Fn(T, T) -> T, S: Fn(T, T) -> T, M: Fn(T, T) -> T, D: Fn(T, T) -> T, U: Fn(UnaryRule, T, T) -> T>(
    states: Seq<Seq<Variable<T>>>,
    order: Seq<usize>,
    plus: A,
    minus: S,
    times: M,
    divide: D,
    unary: U,
) -> bool {
    &&& states.len() == order.len() + 1
    &&& forall|k: int| 0 <= k < order.len() ==> #[trigger] propagated(
        states[k],
        order[order.len() - 1 - k] as int,
        plus,
        minus,
        times,
        divide,
        unary,
        states[k + 1],
    )
}

/// `after` is what back-propagation from `root` makes of `before`: the gradient of `root` seeded,
/// then every variable `root` depends on passing its gradient on, in the reverse of the
/// topological order (`Graph::topological_order`), so each variable after all those computed from it.
pub open spec fn backward_result<T, A: Fn(T, T) -> T, S: Fn(T, T) -> T, M: Fn(T, T) -> T, D: Fn(T, T) -> T, U: Fn(UnaryRule, T, T) -> T>(
    before: Seq<Variable<T>>,
    root: int,
    grad_output: Option<&Tensor<T>>,
    one: T,
    plus: A,
    minus: S,
    times: M,
    divide: D,
    unary: U,
    after: Seq<Variable<T>>,
) -> bool {
    let order = walk(before, root, Seq::empty(), Seq::new(before.len(), |i: int| false)).0;
    exists|states: Seq<Seq<Variable<T>>>|
        #[trigger] back_propagated(states, order, plus, minus, times, divide, unary)
        && seeded_nodes(before, root, grad_output, one, states[0])
        && states.last() == after
}

/// Back-propagation from `root`: seeds its gradient with `grad_output`, or with `one` for a
/// single-element output, then lets every variable `root` depends on pass its gradient on to
/// its operands (`propagate_with`), outputs before the variables they were computed from.
pub fn backward_with<
    T: Copy + Default,
    A: Fn(T, T) -> T + Copy,
    S: Fn(T, T) -> T + Copy,
    M: Fn(T, T) -> T + Copy,
    D: Fn(T, T) -> T + Copy,
    U: Fn(UnaryRule, T, T) -> T + Copy,
>(
    graph: &mut Graph<T>,
    root: usize,
    grad_output: Option<&Tensor<T>>,
    one: T,
    plus: A,
    minus: S,
    times: M,
    divide: D,
    unary: U,
)
    requires
        old(graph).wf(),
        root < old(graph).nodes@.len(),
        old(graph).nodes@[root as int].grad matches Some(g) ==> (grad_output matches Some(go)
            ==> go@.shape == g@.shape && go@.data.len() <= g@.data.len()),
        forall|x: int| 0 <= x < old(graph).nodes@.len() && #[trigger] reaches(old(graph).nodes@, root as int, x)
            ==> propagation_fits(old(graph).nodes@, x),
        forall|x: T, y: T| #[trigger] plus.requires((x, y)),
        forall|x: T, y: T| #[trigger] minus.requires((x, y)),
        forall|x: T, y: T| #[trigger] times.requires((x, y)),
        forall|x: T, y: T| #[trigger] divide.requires((x, y)),
        forall|k: UnaryRule, x: T, y: T| #[trigger] unary.requires((k, x, y)),
    ensures
        final(graph).wf(),
        same_frame(old(graph).nodes@, final(graph).nodes@),
        forall|x: int| 0 <= x < old(graph).nodes@.len() && !reaches(old(graph).nodes@, root as int, x)
            ==> #[trigger] final(graph).nodes@[x] == old(graph).nodes@[x],
        backward_result(old(graph).nodes@, root as int, grad_output, one, plus, minus, times, divide, unary, final(graph).nodes@),
{
    let ghost before = graph.nodes@;
    let order = graph.topological_order(root);
    graph.seed_gradient(root, grad_output, one);
    let ghost s0 = graph.nodes@;
    proof {
        assert(seeded_nodes(before, root as int, grad_output, one, s0));
        assert forall|i: int| 0 <= i < before.len() implies {
            &&& #[trigger] s0[i].data == before[i].data
            &&& s0[i].requires_grad == before[i].requires_grad
            &&& s0[i].operation == before[i].operation
            &&& s0[i].id == before[i].id
            &&& (s0[i].grad is Some <==> before[i].grad is Some)
            &&& (before[i].grad matches Some(g) ==> (s0[i].grad matches Some(h)
                && h@.shape == g@.shape && h@.data.len() == g@.data.len()))
        } by {
            if i == root {
                match (before[i].grad, grad_output) {
                    (Some(g), Some(go)) => {
                        assert((go@.data + g@.data.skip(go@.data.len() as int)).len() == g@.data.len());
                    },
                    _ => {},
                }
            }
        }
    }
    proof {
        assert forall|i: int, j: int| 0 <= i < before.len() && 0 <= j < operands(before[i].operation).len()
            implies #[trigger] operands(before[i].operation)[j] < i by {
            assert(before[i].id == i);
        }
    }
    let ghost mut states: Seq<Seq<Variable<T>>> = seq![s0];
    let total = graph.nodes.len();
    let len = order.len();
    let mut k: usize = len;
    while k > 0
        invariant
            len == order@.len(),
            k <= len,
            graph.wf(),
            before.len() == graph.nodes@.len(),
            before.len() == total,
            topologically_ordered(before, order@),
            order@ == walk(before, root as int, Seq::empty(), Seq::new(before.len(), |i: int| false)).0,
            forall|x: int| 0 <= x < before.len() ==> (listed(order@, x) <==> #[trigger] reaches(before, root as int, x)),
            forall|x: int| 0 <= x < before.len() && #[trigger] reaches(before, root as int, x) ==> propagation_fits(before, x),
            forall|i: int| 0 <= i < before.len() ==> #[trigger] before[i].id == i,
            forall|i: int, j: int| 0 <= i < before.len() && 0 <= j < operands(before[i].operation).len()
                ==> #[trigger] operands(before[i].operation)[j] < i,
            same_frame(before, graph.nodes@),
            forall|x: int| 0 <= x < before.len() && !reaches(before, root as int, x)
                ==> #[trigger] graph.nodes@[x] == before[x],
            states.len() == len - k + 1,
            states[0] == s0,
            states.last() == graph.nodes@,
            forall|j: int| 0 <= j < len - k ==> #[trigger] propagated(
                states[j],
                order@[len - 1 - j] as int,
                plus,
                minus,
                times,
                divide,
                unary,
                states[j + 1],
            ),
            forall|x: T, y: T| #[trigger] plus.requires((x, y)),
            forall|x: T, y: T| #[trigger] minus.requires((x, y)),
            forall|x: T, y: T| #[trigger] times.requires((x, y)),
            forall|x: T, y: T| #[trigger] divide.requires((x, y)),
            forall|q: UnaryRule, x: T, y: T| #[trigger] unary.requires((q, x, y)),
        decreases k,
    {
        k = k - 1;
        let v = order[k];
        proof {
            assert(order@[k as int] < before.len());
            assert(listed(order@, v as int));
            assert(reaches(before, root as int, v as int));
            assert(propagation_fits(before, v as int));
            assert forall|j: int| 0 <= j < operands(before[v as int].operation).len() implies #[trigger] operands(before[v as int].operation)[j] < v by {}
            lemma_fits_kept(before, graph.nodes@, v as int);
            assert(graph.nodes@[v as int].operation == before[v as int].operation);
        }
        let ghost cur = graph.nodes@;
        propagate_with(graph, v, plus, minus, times, divide, unary);
        proof {
            lemma_same_frame_trans(before, cur, graph.nodes@);
            assert forall|x: int| 0 <= x < before.len() && !reaches(before, root as int, x)
                implies #[trigger] graph.nodes@[x] == before[x] by {
                let ops = operands(before[v as int].operation);
                if ops.contains(x as usize) {
                    let j = choose|j: int| 0 <= j < ops.len() && ops[j] == x as usize;
                    assert(ops[j] < v);
                    assert(ops[j] as int == x);
                    lemma_reaches_operand(before, v as int, j);
                    lemma_reaches_trans(before, root as int, v as int, x);
                }
                assert(cur[v as int].operation == before[v as int].operation);
            }
            states = states.push(graph.nodes@);
            assert(propagated(states[len - k - 1], order@[len - 1 - (len - k - 1)] as int, plus, minus, times, divide, unary, states[len - k]));
        }
    }
    proof {
        assert(back_propagated(states, order@, plus, minus, times, divide, unary));
    }
}

} // verus!
