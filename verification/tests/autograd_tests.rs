use ghosenet::autograd::{BinaryOp, Graph, Operation, Variable};
use ghosenet::backprop::{backward_with, propagate_with, UnaryRule};
use ghosenet::ops::broadcast_with;
use ghosenet::Tensor;

fn scalar(v: f32, requires_grad: bool) -> Tensor<f32> {
    Tensor::new(vec![v], vec![1], requires_grad)
}

#[test]
fn variables_from_tensors() {
    let v = Variable::new(scalar(2.0, true), 7);
    assert!(v.requires_grad);
    assert_eq!(v.id, 7);
    assert_eq!(v.grad.as_ref().unwrap().data, vec![0.0]);
    assert!(matches!(v.operation, Operation::Leaf));

    let s: Variable<f32> = Variable::from_scalar(3.0, 1);
    assert!(!s.requires_grad);
    assert!(s.grad.is_none());
    assert_eq!(s.data.shape, vec![1]);

    let mut t = s.requires_grad();
    assert!(t.requires_grad);
    assert_eq!(t.grad.as_ref().unwrap().data, vec![0.0]);
    t.grad.as_mut().unwrap().data[0] = 5.0;
    t.zero_grad();
    assert_eq!(t.grad.as_ref().unwrap().data, vec![0.0]);
}

#[test]
fn recording_operations_and_ordering() {
    let mut g: Graph<f32> = Graph::new();
    let a = g.insert(Variable::from_scalar(2.0, 0).requires_grad());
    let b = g.insert(Variable::from_scalar(3.0, 0).requires_grad());
    let c = g.insert(Variable::from_scalar(4.0, 0).requires_grad());
    let x = g.insert(Variable::from_scalar(9.0, 0));
    assert_eq!((a, b, c, x), (0, 1, 2, 3));
    assert_eq!(g.nodes[2].id, 2);

    let prod = broadcast_with(&g.nodes[a].data, &g.nodes[b].data, |p: f32, q: f32| p * q).unwrap();
    let temp = g.record(BinaryOp::Mul, a, b, prod);
    assert_eq!(temp, 4);
    assert!(matches!(g.nodes[temp].operation, Operation::Mul(0, 1)));
    assert!(g.nodes[temp].requires_grad);

    let sum = broadcast_with(&g.nodes[temp].data, &g.nodes[c].data, |p: f32, q: f32| p + q).unwrap();
    let f = g.record(BinaryOp::Add, temp, c, sum);
    assert_eq!(g.nodes[f].data.data, vec![10.0]);

    let order = g.topological_order(f);
    assert_eq!(order, vec![0, 1, 4, 2, 5]);
    assert_eq!(*order.last().unwrap(), f);

    let only_x = g.topological_order(x);
    assert_eq!(only_x, vec![3]);

    let plain = broadcast_with(&g.nodes[x].data, &g.nodes[x].data, |p: f32, q: f32| p + q).unwrap();
    let y = g.record(BinaryOp::Add, x, x, plain);
    assert!(!g.nodes[y].requires_grad);
    assert!(matches!(g.nodes[y].operation, Operation::Leaf));
    assert!(g.nodes[y].grad.is_none());
}

#[test]
fn seeding_the_output_gradient() {
    let mut g: Graph<f32> = Graph::new();
    let a = g.insert(Variable::from_scalar(2.0, 0).requires_grad());
    g.seed_gradient(a, None, 1.0);
    assert_eq!(g.nodes[a].grad.as_ref().unwrap().data, vec![1.0]);

    let v = g.insert(Variable::new(Tensor::new(vec![1.0, 2.0, 3.0], vec![3], true), 0));
    g.seed_gradient(v, None, 1.0);
    assert_eq!(g.nodes[v].grad.as_ref().unwrap().data, vec![0.0, 0.0, 0.0]);
    let go = Tensor::new(vec![1.0, 1.0, 1.0], vec![3], false);
    g.seed_gradient(v, Some(&go), 1.0);
    assert_eq!(g.nodes[v].grad.as_ref().unwrap().data, vec![1.0, 1.0, 1.0]);

    let n = g.insert(Variable::from_scalar(5.0, 0));
    g.seed_gradient(n, None, 1.0);
    assert!(g.nodes[n].grad.is_none());
}

fn f32_unary(kind: UnaryRule, g: f32, x: f32) -> f32 {
    match kind {
        UnaryRule::Pow => g * (x.ln() * x),
        UnaryRule::Tanh => g * (1.0 - x * x),
        UnaryRule::Relu => g * if x > 0.0 { 1.0 } else { 0.0 },
        UnaryRule::Sigmoid => {
            let s = 1.0 / (1.0 + (-x).exp());
            g * (s * (1.0 - s))
        }
    }
}

fn backward_f32(g: &mut Graph<f32>, root: usize) {
    backward_with(
        g,
        root,
        None,
        1.0,
        |a: f32, b: f32| a + b,
        |a: f32, b: f32| a - b,
        |a: f32, b: f32| a * b,
        |a: f32, b: f32| a / b,
        f32_unary,
    );
}

#[test]
fn backward_through_product_and_sum() {
    // f = a * b + c at a = 2, b = 3, c = 4
    let mut g: Graph<f32> = Graph::new();
    let a = g.insert(Variable::from_scalar(2.0, 0).requires_grad());
    let b = g.insert(Variable::from_scalar(3.0, 0).requires_grad());
    let c = g.insert(Variable::from_scalar(4.0, 0).requires_grad());
    let prod = broadcast_with(&g.nodes[a].data, &g.nodes[b].data, |p: f32, q: f32| p * q).unwrap();
    let t = g.record(BinaryOp::Mul, a, b, prod);
    let sum = broadcast_with(&g.nodes[t].data, &g.nodes[c].data, |p: f32, q: f32| p + q).unwrap();
    let f = g.record(BinaryOp::Add, t, c, sum);
    backward_f32(&mut g, f);
    assert_eq!(g.nodes[f].grad.as_ref().unwrap().data, vec![1.0]);
    assert_eq!(g.nodes[a].grad.as_ref().unwrap().data, vec![3.0]);
    assert_eq!(g.nodes[b].grad.as_ref().unwrap().data, vec![2.0]);
    assert_eq!(g.nodes[c].grad.as_ref().unwrap().data, vec![1.0]);
    assert_eq!(g.nodes[a].data.data, vec![2.0]);
}

#[test]
fn backward_through_difference_and_quotient() {
    // f = (a - b) / c at a = 5, b = 1, c = 2
    let mut g: Graph<f32> = Graph::new();
    let a = g.insert(Variable::from_scalar(5.0, 0).requires_grad());
    let b = g.insert(Variable::from_scalar(1.0, 0).requires_grad());
    let c = g.insert(Variable::from_scalar(2.0, 0).requires_grad());
    let diff = broadcast_with(&g.nodes[a].data, &g.nodes[b].data, |p: f32, q: f32| p - q).unwrap();
    let d = g.record(BinaryOp::Sub, a, b, diff);
    let quot = broadcast_with(&g.nodes[d].data, &g.nodes[c].data, |p: f32, q: f32| p / q).unwrap();
    let f = g.record(BinaryOp::Div, d, c, quot);
    backward_f32(&mut g, f);
    assert_eq!(g.nodes[d].grad.as_ref().unwrap().data, vec![0.5]);
    assert_eq!(g.nodes[a].grad.as_ref().unwrap().data, vec![0.5]);
    assert_eq!(g.nodes[b].grad.as_ref().unwrap().data, vec![-0.5]);
    // d f / d c = -(a - b) / c^2 = -1
    assert_eq!(g.nodes[c].grad.as_ref().unwrap().data, vec![-1.0]);
}

#[test]
fn backward_with_shared_operand_adds_twice() {
    // f = x * x at x = 3: both operand slots feed the same gradient
    let mut g: Graph<f32> = Graph::new();
    let x = g.insert(Variable::from_scalar(3.0, 0).requires_grad());
    let sq = broadcast_with(&g.nodes[x].data, &g.nodes[x].data, |p: f32, q: f32| p * q).unwrap();
    let f = g.record(BinaryOp::Mul, x, x, sq);
    backward_f32(&mut g, f);
    assert_eq!(g.nodes[x].grad.as_ref().unwrap().data, vec![6.0]);
}

#[test]
fn backward_with_broadcast_operand() {
    // f = a * s with a of shape [2] and a constant s of shape [1]; output gradient given
    let mut g: Graph<f32> = Graph::new();
    let a = g.insert(Variable::new(Tensor::new(vec![1.0, 2.0], vec![2], true), 0));
    let s = g.insert(Variable::new(Tensor::new(vec![10.0], vec![1], false), 0));
    let prod = broadcast_with(&g.nodes[a].data, &g.nodes[s].data, |p: f32, q: f32| p * q).unwrap();
    let f = g.record(BinaryOp::Mul, a, s, prod);
    let go = Tensor::new(vec![1.0, 1.0], vec![2], false);
    backward_with(
        &mut g,
        f,
        Some(&go),
        1.0,
        |p: f32, q: f32| p + q,
        |p: f32, q: f32| p - q,
        |p: f32, q: f32| p * q,
        |p: f32, q: f32| p / q,
        f32_unary,
    );
    assert_eq!(g.nodes[a].grad.as_ref().unwrap().data, vec![10.0, 10.0]);
    assert!(g.nodes[s].grad.is_none());
}

#[test]
fn propagating_a_unary_rule() {
    let mut g: Graph<u64> = Graph::new();
    let x = g.insert(Variable::new(Tensor::new(vec![4u64, 0], vec![2], true), 0));
    let mut y = Variable::new(Tensor::new(vec![4u64, 0], vec![2], true), 0);
    y.operation = Operation::Relu(x);
    let y = g.insert(y);
    g.nodes[y].grad.as_mut().unwrap().data = vec![7, 7];
    propagate_with(
        &mut g,
        y,
        |p: u64, q: u64| p + q,
        |p: u64, q: u64| p - q,
        |p: u64, q: u64| p * q,
        |p: u64, q: u64| p / q,
        |k: UnaryRule, gv: u64, xv: u64| match k {
            UnaryRule::Relu => if xv > 0 { gv } else { 0 },
            _ => 0,
        },
    );
    assert_eq!(g.nodes[x].grad.as_ref().unwrap().data, vec![7, 0]);
    assert_eq!(g.nodes[y].grad.as_ref().unwrap().data, vec![7, 7]);
}

#[test]
fn backward_leaves_unreached_variables_alone() {
    let mut g: Graph<f32> = Graph::new();
    let a = g.insert(Variable::from_scalar(2.0, 0).requires_grad());
    let other = g.insert(Variable::from_scalar(7.0, 0).requires_grad());
    g.nodes[other].grad.as_mut().unwrap().data = vec![42.0];
    let sq = broadcast_with(&g.nodes[a].data, &g.nodes[a].data, |p: f32, q: f32| p * q).unwrap();
    let f = g.record(BinaryOp::Mul, a, a, sq);
    backward_f32(&mut g, f);
    assert_eq!(g.nodes[a].grad.as_ref().unwrap().data, vec![4.0]);
    assert_eq!(g.nodes[other].grad.as_ref().unwrap().data, vec![42.0]);
}
