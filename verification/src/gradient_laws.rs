//! What back-propagation hands each operand, entry by entry, stated directly over the data
//! the rules read: for every operation, which element of which tensor a gradient term is
//! built from, which arithmetic builds it, and how it is combined into the operand's gradient.
use vstd::prelude::*;
use crate::autograd::{operands, seeded, walk, Operation, Variable};
use crate::backprop::{back_propagated, backward_result, collects, propagated, seeded_nodes, UnaryRule};
use crate::ops::{broadcast_offset, law_broadcast_same_shape_aligned};
use crate::shape::shape_size;
use crate::tensor::{Tensor, TensorView};

verus! {

/// The gradient of a variable that has one.
pub open spec fn grad_of<T>(x: Variable<T>) -> TensorView<T> {
    x.grad->0@
}

/// The element of `t` that position `i` of a result of shape `out` reads under broadcasting.
pub open spec fn broadcast_read<T>(t: TensorView<T>, out: Seq<usize>, i: int) -> T {
    t.data[broadcast_offset(t.shape, out, i as nat) as int]
}

/// Once a `Mul(a, b)` variable `v` (with distinct operands) passes on its gradient `g`, entry `i`
/// of `a`'s gradient is its old entry plus `g[i]` times the element of `b` that output position
/// `i` reads under broadcasting — element `i` itself where `b` has `g`'s shape — and likewise for
/// `b` with `a`.
pub proof fn law_mul_gradient<T, A: Fn(T, T) -> T, S: Fn(T, T) -> T, M: Fn(T, T) -> T, D: Fn(T, T) -> T, U: Fn(UnaryRule, T, T) -> T>(
    before: Seq<Variable<T>>,
    v: int,
    a: usize,
    b: usize,
    plus: A,
    minus: S,
    times: M,
    divide: D,
    unary: U,
    after: Seq<Variable<T>>,
    i: int,
)
    requires
        0 <= v < before.len(),
        a < before.len(),
        b < before.len(),
        a != b,
        before[v].operation == Operation::<T>::Mul(a, b),
        before[v].grad is Some,
        0 <= i < grad_of(before[v]).data.len(),
        propagated(before, v, plus, minus, times, divide, unary, after),
    ensures
        collects(before, a as int) ==> after[a as int].grad is Some && exists|t: T|
            #[trigger] times.ensures((grad_of(before[v]).data[i], broadcast_read(before[b as int].data@, grad_of(before[v]).shape, i)), t)
            && plus.ensures((grad_of(before[a as int]).data[i], t), grad_of(after[a as int]).data[i]),
        collects(before, b as int) ==> after[b as int].grad is Some && exists|t: T|
            #[trigger] times.ensures((grad_of(before[v]).data[i], broadcast_read(before[a as int].data@, grad_of(before[v]).shape, i)), t)
            && plus.ensures((grad_of(before[b as int]).data[i], t), grad_of(after[b as int]).data[i]),
        collects(before, a as int) && before[b as int].data@.shape == grad_of(before[v]).shape
            && i < shape_size(grad_of(before[v]).shape) ==> exists|t: T|
            #[trigger] times.ensures((grad_of(before[v]).data[i], before[b as int].data@.data[i]), t)
            && plus.ensures((grad_of(before[a as int]).data[i], t), grad_of(after[a as int]).data[i]),
        collects(before, b as int) && before[a as int].data@.shape == grad_of(before[v]).shape
            && i < shape_size(grad_of(before[v]).shape) ==> exists|t: T|
            #[trigger] times.ensures((grad_of(before[v]).data[i], before[a as int].data@.data[i]), t)
            && plus.ensures((grad_of(before[b as int]).data[i], t), grad_of(after[b as int]).data[i]),
{
    let g = grad_of(before[v]);
    let n = g.data.len();
    let mid = choose|mid: Seq<Variable<T>>|
        #[trigger] crate::backprop::accumulated(before, a as int, n, crate::backprop::scaled_by(times, g, before[b as int].data@), plus, mid)
        && crate::backprop::accumulated(mid, b as int, n, crate::backprop::scaled_by(times, g, before[a as int].data@), plus, after);
    if collects(before, a as int) {
        assert(crate::backprop::gained(crate::backprop::scaled_by(times, g, before[b as int].data@), plus, i,
            grad_of(before[a as int]).data[i], grad_of(mid[a as int]).data[i]));
        assert(after[a as int] == mid[a as int]);
    }
    if collects(before, b as int) {
        assert(mid[b as int] == before[b as int]);
        assert(crate::backprop::gained(crate::backprop::scaled_by(times, g, before[a as int].data@), plus, i,
            grad_of(mid[b as int]).data[i], grad_of(after[b as int]).data[i]));
    }
    if i < shape_size(g.shape) {
        law_broadcast_same_shape_aligned(g.shape, i as nat);
    }
}

/// Once an `Add(a, b)` or `Sub(a, b)` variable `v` (with distinct operands) passes on its
/// gradient `g`, entry `i` of `a`'s gradient is its old entry plus `g[i]`; entry `i` of `b`'s is
/// its old entry plus `g[i]` for `Add` and minus `g[i]` for `Sub`.
pub proof fn law_sum_difference_gradient<T, A: Fn(T, T) -> T, S: Fn(T, T) -> T, M: Fn(T, T) -> T, D: Fn(T, T) -> T, U: Fn(UnaryRule, T, T) -> T>(
    before: Seq<Variable<T>>,
    v: int,
    a: usize,
    b: usize,
    plus: A,
    minus: S,
    times: M,
    divide: D,
    unary: U,
    after: Seq<Variable<T>>,
    i: int,
)
    requires
        0 <= v < before.len(),
        a < before.len(),
        b < before.len(),
        a != b,
        before[v].operation == Operation::<T>::Add(a, b) || before[v].operation == Operation::<T>::Sub(a, b),
        before[v].grad is Some,
        0 <= i < grad_of(before[v]).data.len(),
        propagated(before, v, plus, minus, times, divide, unary, after),
    ensures
        collects(before, a as int) ==> after[a as int].grad is Some
            && plus.ensures((grad_of(before[a as int]).data[i], grad_of(before[v]).data[i]), grad_of(after[a as int]).data[i]),
        before[v].operation == Operation::<T>::Add(a, b) && collects(before, b as int) ==> after[b as int].grad is Some
            && plus.ensures((grad_of(before[b as int]).data[i], grad_of(before[v]).data[i]), grad_of(after[b as int]).data[i]),
        before[v].operation == Operation::<T>::Sub(a, b) && collects(before, b as int) ==> after[b as int].grad is Some
            && minus.ensures((grad_of(before[b as int]).data[i], grad_of(before[v]).data[i]), grad_of(after[b as int]).data[i]),
{
    let g = grad_of(before[v]);
    let n = g.data.len();
    let second = if before[v].operation == Operation::<T>::Add(a, b) { true } else { false };
    if before[v].operation == Operation::<T>::Add(a, b) {
        let mid = choose|mid: Seq<Variable<T>>|
            #[trigger] crate::backprop::accumulated(before, a as int, n, crate::backprop::passed_on(g), plus, mid)
            && crate::backprop::accumulated(mid, b as int, n, crate::backprop::passed_on(g), plus, after);
        if collects(before, a as int) {
            assert(crate::backprop::gained(crate::backprop::passed_on(g), plus, i, grad_of(before[a as int]).data[i], grad_of(mid[a as int]).data[i]));
            assert(after[a as int] == mid[a as int]);
        }
        if collects(before, b as int) {
            assert(mid[b as int] == before[b as int]);
            assert(crate::backprop::gained(crate::backprop::passed_on(g), plus, i, grad_of(mid[b as int]).data[i], grad_of(after[b as int]).data[i]));
        }
    } else {
        let mid = choose|mid: Seq<Variable<T>>|
            #[trigger] crate::backprop::accumulated(before, a as int, n, crate::backprop::passed_on(g), plus, mid)
            && crate::backprop::accumulated(mid, b as int, n, crate::backprop::passed_on(g), minus, after);
        if collects(before, a as int) {
            assert(crate::backprop::gained(crate::backprop::passed_on(g), plus, i, grad_of(before[a as int]).data[i], grad_of(mid[a as int]).data[i]));
            assert(after[a as int] == mid[a as int]);
        }
        if collects(before, b as int) {
            assert(mid[b as int] == before[b as int]);
            assert(crate::backprop::gained(crate::backprop::passed_on(g), minus, i, grad_of(mid[b as int]).data[i], grad_of(after[b as int]).data[i]));
        }
    }
}

/// Once a `Div(a, b)` variable `v` (with distinct operands) passes on its gradient `g`, entry
/// `i` of `a`'s gradient is its old entry plus `g[i]` divided by the element of `b` that output
/// position `i` reads, and entry `i` of `b`'s is its old entry minus `g[i]` times the element
/// read from `a`, divided by the square of the element read from `b`.
pub proof fn law_div_gradient<T, A: Fn(T, T) -> T, S: Fn(T, T) -> T, M: Fn(T, T) -> T, D: Fn(T, T) -> T, U: Fn(UnaryRule, T, T) -> T>(
    before: Seq<Variable<T>>,
    v: int,
    a: usize,
    b: usize,
    plus: A,
    minus: S,
    times: M,
    divide: D,
    unary: U,
    after: Seq<Variable<T>>,
    i: int,
)
    requires
        0 <= v < before.len(),
        a < before.len(),
        b < before.len(),
        a != b,
        before[v].operation == Operation::<T>::Div(a, b),
        before[v].grad is Some,
        0 <= i < grad_of(before[v]).data.len(),
        propagated(before, v, plus, minus, times, divide, unary, after),
    ensures
        collects(before, a as int) ==> after[a as int].grad is Some && exists|t: T|
            #[trigger] divide.ensures((grad_of(before[v]).data[i], broadcast_read(before[b as int].data@, grad_of(before[v]).shape, i)), t)
            && plus.ensures((grad_of(before[a as int]).data[i], t), grad_of(after[a as int]).data[i]),
        collects(before, b as int) ==> after[b as int].grad is Some && exists|p: T, q: T, t: T|
            #![trigger times.ensures((grad_of(before[v]).data[i], broadcast_read(before[a as int].data@, grad_of(before[v]).shape, i)), p), times.ensures((broadcast_read(before[b as int].data@, grad_of(before[v]).shape, i), broadcast_read(before[b as int].data@, grad_of(before[v]).shape, i)), q), divide.ensures((p, q), t)]
            times.ensures((grad_of(before[v]).data[i], broadcast_read(before[a as int].data@, grad_of(before[v]).shape, i)), p)
            && times.ensures((broadcast_read(before[b as int].data@, grad_of(before[v]).shape, i), broadcast_read(before[b as int].data@, grad_of(before[v]).shape, i)), q)
            && divide.ensures((p, q), t)
            && minus.ensures((grad_of(before[b as int]).data[i], t), grad_of(after[b as int]).data[i]),
{
    let g = grad_of(before[v]);
    let n = g.data.len();
    let ta = crate::backprop::scaled_by(divide, g, before[b as int].data@);
    let tb = crate::backprop::quotient_term(times, divide, g, before[a as int].data@, before[b as int].data@);
    let mid = choose|mid: Seq<Variable<T>>|
        #[trigger] crate::backprop::accumulated(before, a as int, n, ta, plus, mid)
        && crate::backprop::accumulated(mid, b as int, n, tb, minus, after);
    if collects(before, a as int) {
        assert(crate::backprop::gained(ta, plus, i, grad_of(before[a as int]).data[i], grad_of(mid[a as int]).data[i]));
        assert(after[a as int] == mid[a as int]);
    }
    if collects(before, b as int) {
        assert(mid[b as int] == before[b as int]);
        assert(crate::backprop::gained(tb, minus, i, grad_of(mid[b as int]).data[i], grad_of(after[b as int]).data[i]));
        let t = choose|t: T| tb(i, t) && minus.ensures((grad_of(mid[b as int]).data[i], t), grad_of(after[b as int]).data[i]);
        let (p, q) = choose|p: T, q: T|
            times.ensures((g.data[i], crate::backprop::read_at(before[a as int].data@, g.shape, i)), p)
            && times.ensures((crate::backprop::read_at(before[b as int].data@, g.shape, i), crate::backprop::read_at(before[b as int].data@, g.shape, i)), q)
            && divide.ensures((p, q), t);
        assert(broadcast_read(before[a as int].data@, g.shape, i) == crate::backprop::read_at(before[a as int].data@, g.shape, i));
        assert(broadcast_read(before[b as int].data@, g.shape, i) == crate::backprop::read_at(before[b as int].data@, g.shape, i));
        assert(times.ensures((g.data[i], broadcast_read(before[a as int].data@, g.shape, i)), p)
            && times.ensures((broadcast_read(before[b as int].data@, g.shape, i), broadcast_read(before[b as int].data@, g.shape, i)), q)
            && divide.ensures((p, q), t)
            && minus.ensures((grad_of(before[b as int]).data[i], t), grad_of(after[b as int]).data[i]));
    }
}

/// Once a one-operand variable `v` with operand `a` passes on its gradient `g`, entry `i` of
/// `a`'s gradient is its old entry plus what `unary` gives for the rule of `v`'s own operation,
/// `g[i]` and the element that rule reads: `v`'s own element `i` for `Pow`, `Tanh` and
/// `Sigmoid`, `a`'s element `i` for `Relu`.
pub proof fn law_unary_gradient<T, A: Fn(T, T) -> T, S: Fn(T, T) -> T, M: Fn(T, T) -> T, D: Fn(T, T) -> T, U: Fn(UnaryRule, T, T) -> T>(
    before: Seq<Variable<T>>,
    v: int,
    a: usize,
    plus: A,
    minus: S,
    times: M,
    divide: D,
    unary: U,
    after: Seq<Variable<T>>,
    i: int,
)
    requires
        0 <= v < before.len(),
        a < before.len(),
        before[v].grad is Some,
        0 <= i < grad_of(before[v]).data.len(),
        propagated(before, v, plus, minus, times, divide, unary, after),
    ensures
        before[v].operation == Operation::<T>::Tanh(a) && collects(before, a as int) ==> after[a as int].grad is Some && exists|t: T|
            #[trigger] unary.ensures((UnaryRule::Tanh, grad_of(before[v]).data[i], before[v].data@.data[i]), t)
            && plus.ensures((grad_of(before[a as int]).data[i], t), grad_of(after[a as int]).data[i]),
        before[v].operation == Operation::<T>::Sigmoid(a) && collects(before, a as int) ==> after[a as int].grad is Some && exists|t: T|
            #[trigger] unary.ensures((UnaryRule::Sigmoid, grad_of(before[v]).data[i], before[v].data@.data[i]), t)
            && plus.ensures((grad_of(before[a as int]).data[i], t), grad_of(after[a as int]).data[i]),
        before[v].operation == Operation::<T>::Relu(a) && collects(before, a as int) ==> after[a as int].grad is Some && exists|t: T|
            #[trigger] unary.ensures((UnaryRule::Relu, grad_of(before[v]).data[i], before[a as int].data@.data[i]), t)
            && plus.ensures((grad_of(before[a as int]).data[i], t), grad_of(after[a as int]).data[i]),
        (before[v].operation matches Operation::Pow(x, _) && x == a) && collects(before, a as int) ==> after[a as int].grad is Some && exists|t: T|
            #[trigger] unary.ensures((UnaryRule::Pow, grad_of(before[v]).data[i], before[v].data@.data[i]), t)
            && plus.ensures((grad_of(before[a as int]).data[i], t), grad_of(after[a as int]).data[i]),
{
    let g = grad_of(before[v]);
    if collects(before, a as int) {
        match before[v].operation {
            Operation::Tanh(x) => {
                if x == a {
                    assert(crate::backprop::gained(crate::backprop::unary_term(unary, UnaryRule::Tanh, g, before[v].data@.data), plus, i,
                        grad_of(before[a as int]).data[i], grad_of(after[a as int]).data[i]));
                }
            },
            Operation::Sigmoid(x) => {
                if x == a {
                    assert(crate::backprop::gained(crate::backprop::unary_term(unary, UnaryRule::Sigmoid, g, before[v].data@.data), plus, i,
                        grad_of(before[a as int]).data[i], grad_of(after[a as int]).data[i]));
                }
            },
            Operation::Relu(x) => {
                if x == a {
                    assert(crate::backprop::gained(crate::backprop::unary_term(unary, UnaryRule::Relu, g, before[a as int].data@.data), plus, i,
                        grad_of(before[a as int]).data[i], grad_of(after[a as int]).data[i]));
                }
            },
            Operation::Pow(x, _) => {
                if x == a {
                    assert(crate::backprop::gained(crate::backprop::unary_term(unary, UnaryRule::Pow, g, before[v].data@.data), plus, i,
                        grad_of(before[a as int]).data[i], grad_of(after[a as int]).data[i]));
                }
            },
            _ => {},
        }
    }
}

/// Seeding with a given output gradient copies it, entry for entry, into the front of the
/// buffer, whatever `one` is, and keeps the entries past it; seeding without one sets a
/// single-entry buffer to `one` and leaves any other buffer as it was.
pub proof fn law_seeded<T>(g: Seq<T>, grad_output: Option<&Tensor<T>>, one: T)
    requires
        grad_output matches Some(go) ==> go@.data.len() <= g.len(),
    ensures
        seeded(g, grad_output, one).len() == g.len(),
        grad_output matches Some(go) ==> forall|i: int| 0 <= i < go@.data.len() ==> #[trigger] seeded(g, grad_output, one)[i] == go@.data[i],
        grad_output matches Some(go) ==> forall|i: int| go@.data.len() <= i < g.len() ==> #[trigger] seeded(g, grad_output, one)[i] == g[i],
        grad_output is None && g.len() == 1 ==> seeded(g, grad_output, one)[0] == one,
        grad_output is None && g.len() != 1 ==> seeded(g, grad_output, one) == g,
{
}

/// Passing a gradient on changes nothing but the gradients of operands that collect them:
/// every other variable, and every operand that does not track gradients or has no buffer,
/// is exactly as it was; data, flags and operations of all variables are kept.
pub proof fn law_propagation_frame<T, A: Fn(T, T) -> T, S: Fn(T, T) -> T, M: Fn(T, T) -> T, D: Fn(T, T) -> T, U: Fn(UnaryRule, T, T) -> T>(
    before: Seq<Variable<T>>,
    v: int,
    plus: A,
    minus: S,
    times: M,
    divide: D,
    unary: U,
    after: Seq<Variable<T>>,
    x: int,
)
    requires
        0 <= v < before.len(),
        0 <= x < before.len(),
        forall|j: int| 0 <= j < operands(before[v].operation).len() ==> #[trigger] operands(before[v].operation)[j] < before.len(),
        propagated(before, v, plus, minus, times, divide, unary, after),
    ensures
        after.len() == before.len(),
        after[x].data == before[x].data,
        after[x].requires_grad == before[x].requires_grad,
        after[x].operation == before[x].operation,
        after[x].id == before[x].id,
        !operands(before[v].operation).contains(x as usize) || !collects(before, x) ==> after[x] == before[x],
{
    let ops = operands(before[v].operation);
    if ops.len() > 0 {
        assert(ops[0] < before.len());
    }
    if ops.len() > 1 {
        assert(ops[1] < before.len());
    }
    let fresh = !ops.contains(x as usize) || !collects(before, x);
    match before[v].grad {
        None => {},
        Some(gt) => {
            let g = gt@;
            let n = g.data.len();
            match before[v].operation {
                Operation::Add(a, b) => {
                    let mid = choose|mid: Seq<Variable<T>>|
                        #[trigger] crate::backprop::accumulated(before, a as int, n, crate::backprop::passed_on(g), plus, mid)
                        && crate::backprop::accumulated(mid, b as int, n, crate::backprop::passed_on(g), plus, after);
                    if x == a { assert(ops[0] == a); }
                    if x == b { assert(ops[1] == b); }
                },
                Operation::Sub(a, b) => {
                    let mid = choose|mid: Seq<Variable<T>>|
                        #[trigger] crate::backprop::accumulated(before, a as int, n, crate::backprop::passed_on(g), plus, mid)
                        && crate::backprop::accumulated(mid, b as int, n, crate::backprop::passed_on(g), minus, after);
                    if x == a { assert(ops[0] == a); }
                    if x == b { assert(ops[1] == b); }
                },
                Operation::Mul(a, b) => {
                    let mid = choose|mid: Seq<Variable<T>>|
                        #[trigger] crate::backprop::accumulated(before, a as int, n, crate::backprop::scaled_by(times, g, before[b as int].data@), plus, mid)
                        && crate::backprop::accumulated(mid, b as int, n, crate::backprop::scaled_by(times, g, before[a as int].data@), plus, after);
                    if x == a { assert(ops[0] == a); }
                    if x == b { assert(ops[1] == b); }
                },
                Operation::Div(a, b) => {
                    let mid = choose|mid: Seq<Variable<T>>|
                        #[trigger] crate::backprop::accumulated(before, a as int, n, crate::backprop::scaled_by(divide, g, before[b as int].data@), plus, mid)
                        && crate::backprop::accumulated(mid, b as int, n, crate::backprop::quotient_term(times, divide, g, before[a as int].data@, before[b as int].data@), minus, after);
                    if x == a { assert(ops[0] == a); }
                    if x == b { assert(ops[1] == b); }
                },
                Operation::Pow(a, _) => { if x == a { assert(ops[0] == a); } },
                Operation::Tanh(a) => { if x == a { assert(ops[0] == a); } },
                Operation::Relu(a) => { if x == a { assert(ops[0] == a); } },
                Operation::Sigmoid(a) => { if x == a { assert(ops[0] == a); } },
                Operation::Leaf => {},
            }
        },
    }
}

/// Where both operands of a variable `v` are the same variable `x` (`x + x`, `x * x`, ...),
/// `x` takes in both terms, the first operand's before the second's: entry `i` of its gradient
/// is its old entry combined with the first term and then with the second.
pub proof fn law_shared_operand_gradient<T, A: Fn(T, T) -> T, S: Fn(T, T) -> T, M: Fn(T, T) -> T, D: Fn(T, T) -> T, U: Fn(UnaryRule, T, T) -> T>(
    before: Seq<Variable<T>>,
    v: int,
    x: usize,
    plus: A,
    minus: S,
    times: M,
    divide: D,
    unary: U,
    after: Seq<Variable<T>>,
    i: int,
)
    requires
        0 <= v < before.len(),
        x < before.len(),
        before[v].grad is Some,
        collects(before, x as int),
        0 <= i < grad_of(before[v]).data.len(),
        propagated(before, v, plus, minus, times, divide, unary, after),
    ensures
        before[v].operation == Operation::<T>::Add(x, x) ==> after[x as int].grad is Some && exists|m: T|
            #[trigger] plus.ensures((grad_of(before[x as int]).data[i], grad_of(before[v]).data[i]), m)
            && plus.ensures((m, grad_of(before[v]).data[i]), grad_of(after[x as int]).data[i]),
        before[v].operation == Operation::<T>::Sub(x, x) ==> after[x as int].grad is Some && exists|m: T|
            #[trigger] plus.ensures((grad_of(before[x as int]).data[i], grad_of(before[v]).data[i]), m)
            && minus.ensures((m, grad_of(before[v]).data[i]), grad_of(after[x as int]).data[i]),
        before[v].operation == Operation::<T>::Mul(x, x) ==> after[x as int].grad is Some && exists|t1: T, m: T, t2: T|
            #![trigger times.ensures((grad_of(before[v]).data[i], broadcast_read(before[x as int].data@, grad_of(before[v]).shape, i)), t1), plus.ensures((grad_of(before[x as int]).data[i], t1), m), times.ensures((grad_of(before[v]).data[i], broadcast_read(before[x as int].data@, grad_of(before[v]).shape, i)), t2)]
            times.ensures((grad_of(before[v]).data[i], broadcast_read(before[x as int].data@, grad_of(before[v]).shape, i)), t1)
            && plus.ensures((grad_of(before[x as int]).data[i], t1), m)
            && times.ensures((grad_of(before[v]).data[i], broadcast_read(before[x as int].data@, grad_of(before[v]).shape, i)), t2)
            && plus.ensures((m, t2), grad_of(after[x as int]).data[i]),
{
    let g = grad_of(before[v]);
    let n = g.data.len();
    if before[v].operation == Operation::<T>::Add(x, x) {
        let mid = choose|mid: Seq<Variable<T>>|
            #[trigger] crate::backprop::accumulated(before, x as int, n, crate::backprop::passed_on(g), plus, mid)
            && crate::backprop::accumulated(mid, x as int, n, crate::backprop::passed_on(g), plus, after);
        assert(crate::backprop::gained(crate::backprop::passed_on(g), plus, i, grad_of(before[x as int]).data[i], grad_of(mid[x as int]).data[i]));
        assert(crate::backprop::gained(crate::backprop::passed_on(g), plus, i, grad_of(mid[x as int]).data[i], grad_of(after[x as int]).data[i]));
    }
    if before[v].operation == Operation::<T>::Sub(x, x) {
        let mid = choose|mid: Seq<Variable<T>>|
            #[trigger] crate::backprop::accumulated(before, x as int, n, crate::backprop::passed_on(g), plus, mid)
            && crate::backprop::accumulated(mid, x as int, n, crate::backprop::passed_on(g), minus, after);
        assert(crate::backprop::gained(crate::backprop::passed_on(g), plus, i, grad_of(before[x as int]).data[i], grad_of(mid[x as int]).data[i]));
        assert(crate::backprop::gained(crate::backprop::passed_on(g), minus, i, grad_of(mid[x as int]).data[i], grad_of(after[x as int]).data[i]));
    }
    if before[v].operation == Operation::<T>::Mul(x, x) {
        let term = crate::backprop::scaled_by(times, g, before[x as int].data@);
        let mid = choose|mid: Seq<Variable<T>>|
            #[trigger] crate::backprop::accumulated(before, x as int, n, term, plus, mid)
            && crate::backprop::accumulated(mid, x as int, n, term, plus, after);
        let m = grad_of(mid[x as int]).data[i];
        assert(crate::backprop::gained(term, plus, i, grad_of(before[x as int]).data[i], m));
        assert(crate::backprop::gained(term, plus, i, m, grad_of(after[x as int]).data[i]));
        let t1 = choose|t: T| term(i, t) && plus.ensures((grad_of(before[x as int]).data[i], t), m);
        let t2 = choose|t: T| term(i, t) && plus.ensures((m, t), grad_of(after[x as int]).data[i]);
        assert(times.ensures((g.data[i], broadcast_read(before[x as int].data@, g.shape, i)), t1));
        assert(times.ensures((g.data[i], broadcast_read(before[x as int].data@, g.shape, i)), t2));
    }
}

/// Back-propagation starts at the root: once its gradient is seeded, the root is the first
/// variable to pass its gradient on.
pub proof fn law_backward_starts_at_root<T, A: Fn(T, T) -> T, S: Fn(T, T) -> T, M: Fn(T, T) -> T, D: Fn(T, T) -> T, U: Fn(UnaryRule, T, T) -> T>(
    before: Seq<Variable<T>>,
    root: int,
    grad_output: Option<&Tensor<T>>,
    one: T,
    plus: A,
    minus: S,
    times: M,
    divide: D,
    unary: U,
    after: Seq<Variable<T>>,
)
    requires
        0 <= root < before.len(),
        before.len() <= usize::MAX,
        backward_result(before, root, grad_output, one, plus, minus, times, divide, unary, after),
    ensures
        exists|states: Seq<Seq<Variable<T>>>| {
            &&& #[trigger] states.len() >= 2
            &&& seeded_nodes(before, root, grad_output, one, states[0])
            &&& propagated(states[0], root, plus, minus, times, divide, unary, states[1])
            &&& states.last() == after
        },
{
    let unvisited = Seq::new(before.len(), |i: int| false);
    let order = walk(before, root, Seq::empty(), unvisited).0;
    assert(!unvisited[root]);
    assert(order.len() >= 1 && order.last() as int == root);
    let states = choose|states: Seq<Seq<Variable<T>>>|
        #[trigger] back_propagated(states, order, plus, minus, times, divide, unary)
        && seeded_nodes(before, root, grad_output, one, states[0])
        && states.last() == after;
    assert(propagated(states[0], order[order.len() - 1 - 0int] as int, plus, minus, times, divide, unary, states[0int + 1]));
    assert(states.len() >= 2);
}

} // verus!
