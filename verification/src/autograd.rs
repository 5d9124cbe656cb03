//! Computation graphs for reverse-mode differentiation: variables, the operations that
//! produced them, and the order in which gradients flow back from an output.
//!
//! Variables live in a `Graph` and are named by their position in it; an operation refers to
//! its operands by position, and operands always come before the variables computed from them.
use vstd::prelude::*;
use crate::shape::{prefix_fit, shape_size};
use crate::tensor::{all_default, Tensor, TensorView};

verus! {

/// The operation that produced a variable, with the positions of its operands.
#[derive(Debug)]
pub enum Operation<T> {
    Add(usize, usize),
    Sub(usize, usize),
    Mul(usize, usize),
    Div(usize, usize),
    Pow(usize, T),
    Tanh(usize),
    Relu(usize),
    Sigmoid(usize),
    Leaf,
}

/// The operands of an operation, in order.
pub open spec fn operands<T>(op: Operation<T>) -> Seq<usize> {
    match op {
        Operation::Add(a, b) => seq![a, b],
        Operation::Sub(a, b) => seq![a, b],
        Operation::Mul(a, b) => seq![a, b],
        Operation::Div(a, b) => seq![a, b],
        Operation::Pow(a, _) => seq![a],
        Operation::Tanh(a) => seq![a],
        Operation::Relu(a) => seq![a],
        Operation::Sigmoid(a) => seq![a],
        Operation::Leaf => seq![],
    }
}

/// A tensor in a computation graph, with its gradient and the operation that produced it.
#[derive(Debug)]
pub struct Variable<T> {
    pub data: Tensor<T>,
    pub grad: Option<Tensor<T>>,
    pub requires_grad: bool,
    pub operation: Operation<T>,
    pub id: usize,
}

/// The binary operations a graph records.
#[derive(Debug, Clone, Copy, PartialEq, Eq)]
pub enum BinaryOp {
    Add,
    Sub,
    Mul,
    Div,
}

pub open spec fn binary_operation<T>(kind: BinaryOp, a: usize, b: usize) -> Operation<T> {
    match kind {
        BinaryOp::Add => Operation::Add(a, b),
        BinaryOp::Sub => Operation::Sub(a, b),
        BinaryOp::Mul => Operation::Mul(a, b),
        BinaryOp::Div => Operation::Div(a, b),
    }
}

/// `g` is a zero tensor of shape `shape` without a gradient of its own.
pub open spec fn zero_grad_tensor<T: Default>(g: TensorView<T>, shape: Seq<usize>) -> bool {
    &&& g.shape == shape
    &&& g.data.len() == shape_size(shape)
    &&& all_default(g.data)
    &&& !g.requires_grad
    &&& g.grad is None
}

impl<T: Copy + Default> Variable<T> {
    /// A leaf variable over `tensor`; it tracks gradients exactly when the tensor has a gradient,
    /// and then starts with a zero gradient of the tensor's shape.
    pub fn new(tensor: Tensor<T>, id: usize) -> (v: Variable<T>)
        requires
            tensor@.grad is Some ==> prefix_fit(tensor@.shape),
        ensures
            v.data@ == tensor@,
            v.requires_grad == (tensor@.grad is Some),
            v.requires_grad ==> (v.grad matches Some(g) && zero_grad_tensor(g@, tensor@.shape)),
            !v.requires_grad ==> v.grad is None,
            v.operation is Leaf,
            v.id == id,
    {
        let requires_grad = tensor.grad.is_some();
        let grad = if requires_grad {
            Some(Tensor::zeros(tensor.shape.clone(), false))
        } else {
            None
        };
        Variable { grad, requires_grad, operation: Operation::Leaf, id, data: tensor }
    }

    /// A leaf variable holding one value, shape `[1]`, without gradient tracking.
    pub fn from_scalar(value: T, id: usize) -> (v: Variable<T>)
        ensures
            v.data@.data == seq![value],
            v.data@.shape == seq![1usize],
            v.data@.grad is None,
            !v.requires_grad,
            v.grad is None,
            v.operation is Leaf,
            v.id == id,
    {
        let data = vec![value];
        let shape: Vec<usize> = vec![1];
        proof {
            let s = seq![1usize];
            assert(shape@ =~= s);
            assert(data@ =~= seq![value]);
            assert(s.drop_first() =~= Seq::<usize>::empty());
            assert(shape_size(s) == 1 * shape_size(Seq::<usize>::empty()));
            assert(s.take(0) =~= Seq::<usize>::empty());
            assert(s.take(1) =~= s);
        }
        let tensor = Tensor::new(data, shape, false);
        Variable::new(tensor, id)
    }

    /// Marks the variable as tracking gradients, giving it a zero gradient if it had none.
    pub fn requires_grad(self) -> (v: Variable<T>)
        requires
            self.grad is None ==> prefix_fit(self.data@.shape),
        ensures
            v.requires_grad,
            v.data@ == self.data@,
            v.operation == self.operation,
            v.id == self.id,
            self.grad is Some ==> v.grad == self.grad,
            self.grad is None ==> (v.grad matches Some(g) && zero_grad_tensor(g@, self.data@.shape)),
    {
        let mut v = self;
        v.requires_grad = true;
        if v.grad.is_none() {
            v.grad = Some(Tensor::zeros(v.data.shape.clone(), false));
        }
        v
    }

    /// Resets every entry of the gradient to zero.
    pub fn zero_grad(&mut self)
        ensures
            final(self).data@ == old(self).data@,
            final(self).requires_grad == old(self).requires_grad,
            final(self).operation == old(self).operation,
            final(self).id == old(self).id,
            old(self).grad is None ==> final(self).grad is None,
            old(self).grad matches Some(g) ==> (final(self).grad matches Some(h)
                && h@.shape == g@.shape && h@.grad == g@.grad && h@.requires_grad == g@.requires_grad
                && h@.op == g@.op && h@.data.len() == g@.data.len() && all_default(h@.data)),
    {
        match &mut self.grad {
            Some(g) => {
                let n = g.data.len();
                let mut i: usize = 0;
                let ghost g0 = g@;
                let z = T::default();
                while i < n
                    invariant
                        n == g@.data.len(),
                        i <= n,
                        g@.shape == g0.shape,
                        g@.grad == g0.grad,
                        g@.requires_grad == g0.requires_grad,
                        g@.op == g0.op,
                        g@.data.len() == g0.data.len(),
                        crate::tensor::is_default(z),
                        forall|j: int| 0 <= j < i ==> #[trigger] g@.data[j] == z,
                    decreases n - i,
                {
                    g.set(i, z);
                    i += 1;
                }
            },
            None => {},
        }
    }
}

/// Variables in creation order; `nodes[i]` has id `i` and its operands come before it.
pub struct Graph<T> {
    pub nodes: Vec<Variable<T>>,
}

/// `from` reaches `to`: they are the same variable, or `to` is reached from an operand of `from`.
pub open spec fn reaches<T>(nodes: Seq<Variable<T>>, from: int, to: int) -> bool
    decreases from,
{
    if from == to {
        true
    } else if 0 <= from < nodes.len() {
        let ops = operands(nodes[from].operation);
        ||| ops.len() > 0 && ops[0] < from && reaches(nodes, ops[0] as int, to)
        ||| ops.len() > 1 && ops[1] < from && reaches(nodes, ops[1] as int, to)
    } else {
        false
    }
}

/// The depth-first walk from `v` as a function of the walk so far (`order`, `visited`):
/// nothing changes at a variable already marked; otherwise the walk visits the first operand,
/// then the second, and then lists and marks `v`.
pub open spec fn walk<T>(nodes: Seq<Variable<T>>, v: int, order: Seq<usize>, visited: Seq<bool>) -> (Seq<usize>, Seq<bool>)
    decreases v,
{
    if v < 0 || v >= nodes.len() || visited[v] {
        (order, visited)
    } else {
        let ops = operands(nodes[v].operation);
        let s1 = if ops.len() > 0 && ops[0] < v {
            walk(nodes, ops[0] as int, order, visited)
        } else {
            (order, visited)
        };
        let s2 = if ops.len() > 1 && ops[1] < v {
            walk(nodes, ops[1] as int, s1.0, s1.1)
        } else {
            s1
        };
        (s2.0.push(v as usize), s2.1.update(v, true))
    }
}

/// `x` occurs in `order` before position `k`.
pub open spec fn appears_before(order: Seq<usize>, k: int, x: usize) -> bool {
    exists|k2: int| 0 <= k2 < k && #[trigger] order[k2] == x
}

/// `order` lists distinct variables, each after the operands it was computed from.
pub open spec fn topologically_ordered<T>(nodes: Seq<Variable<T>>, order: Seq<usize>) -> bool {
    &&& forall|k: int| 0 <= k < order.len() ==> #[trigger] order[k] < nodes.len()
    &&& forall|k1: int, k2: int| 0 <= k1 < k2 < order.len() ==> #[trigger] order[k1] != #[trigger] order[k2]
    &&& forall|k: int, j: int|
        0 <= k < order.len() && 0 <= j < operands(nodes[order[k] as int].operation).len()
            ==> #[trigger] appears_before(order, k, operands(nodes[order[k] as int].operation)[j])
}

/// `x` occurs in `order`.
pub open spec fn listed(order: Seq<usize>, x: int) -> bool {
    exists|k: int| 0 <= k < order.len() && #[trigger] order[k] as int == x
}

/// The state of a depth-first walk: `order` is topologically ordered and holds exactly the
/// variables marked in `visited`.
pub open spec fn walk_state<T>(nodes: Seq<Variable<T>>, order: Seq<usize>, visited: Seq<bool>) -> bool {
    &&& visited.len() == nodes.len()
    &&& topologically_ordered(nodes, order)
    &&& forall|x: int| 0 <= x < nodes.len() ==> (#[trigger] visited[x] <==> listed(order, x))
}

impl<T> Graph<T> {
    /// Every variable sits at the position of its id, after its operands.
    pub open spec fn wf(&self) -> bool {
        forall|i: int| 0 <= i < self.nodes@.len() ==> {
            &&& #[trigger] self.nodes@[i].id == i
            &&& forall|j: int| 0 <= j < operands(self.nodes@[i].operation).len()
                ==> #[trigger] operands(self.nodes@[i].operation)[j] < i
        }
    }
}

/// In a well-formed graph a variable reaches only variables at or before its position.
pub proof fn lemma_reaches_backward<T>(g: &Graph<T>, from: int, to: int)
    requires
        g.wf(),
        reaches(g.nodes@, from, to),
    ensures
        to <= from,
    decreases from,
{
    if from != to {
        let ops = operands(g.nodes@[from].operation);
        if ops.len() > 0 && ops[0] < from && reaches(g.nodes@, ops[0] as int, to) {
            lemma_reaches_backward(g, ops[0] as int, to);
        } else {
            lemma_reaches_backward(g, ops[1] as int, to);
        }
    }
}

/// A set of variables closed under operands holds everything its members reach.
proof fn lemma_closed_holds_reached<T>(g: &Graph<T>, order: Seq<usize>, visited: Seq<bool>, from: int, to: int)
    requires
        g.wf(),
        walk_state(g.nodes@, order, visited),
        0 <= from < g.nodes@.len(),
        visited[from],
        reaches(g.nodes@, from, to),
    ensures
        0 <= to < g.nodes@.len(),
        visited[to],
    decreases from,
{
    if from != to {
        let nodes = g.nodes@;
        let ops = operands(nodes[from].operation);
        assert(listed(order, from));
        let k = choose|k: int| 0 <= k < order.len() && #[trigger] order[k] as int == from;
        if ops.len() > 0 && ops[0] < from && reaches(nodes, ops[0] as int, to) {
            assert(appears_before(order, k, operands(nodes[order[k] as int].operation)[0]));
            let k2 = choose|k2: int| 0 <= k2 < k && #[trigger] order[k2] == ops[0];
            assert(order[k2] as int == ops[0] as int);
            assert(listed(order, ops[0] as int));
            lemma_closed_holds_reached(g, order, visited, ops[0] as int, to);
        } else {
            assert(appears_before(order, k, operands(nodes[order[k] as int].operation)[1]));
            let k2 = choose|k2: int| 0 <= k2 < k && #[trigger] order[k2] == ops[1];
            assert(order[k2] as int == ops[1] as int);
            assert(listed(order, ops[1] as int));
            lemma_closed_holds_reached(g, order, visited, ops[1] as int, to);
        }
    }
}

/// A gradient buffer `g` after seeding: its first entries overwritten by `grad_output` where one
/// is given, otherwise, when it has exactly one entry, that entry set to `one`.
pub open spec fn seeded<T>(g: Seq<T>, grad_output: Option<&Tensor<T>>, one: T) -> Seq<T> {
    match grad_output {
        Some(go) => go@.data + g.skip(go@.data.len() as int),
        None => if g.len() == 1 {
            g.update(0, one)
        } else {
            g
        },
    }
}

impl<T: Copy + Default> Graph<T> {
    /// An empty graph.
    pub fn new() -> (g: Graph<T>)
        ensures
            g.nodes@.len() == 0,
            g.wf(),
    {
        Graph { nodes: Vec::new() }
    }

    /// Adds `var` as the next variable, giving it the id of its position.
    pub fn insert(&mut self, var: Variable<T>) -> (id: usize)
        requires
            old(self).wf(),
            forall|j: int| 0 <= j < operands(var.operation).len() ==> #[trigger] operands(var.operation)[j]
                < old(self).nodes@.len(),
        ensures
            id == old(self).nodes@.len(),
            final(self).wf(),
            final(self).nodes@.len() == old(self).nodes@.len() + 1,
            final(self).nodes@.take(id as int) == old(self).nodes@,
            final(self).nodes@[id as int].data@ == var.data@,
            final(self).nodes@[id as int].grad == var.grad,
            final(self).nodes@[id as int].requires_grad == var.requires_grad,
            final(self).nodes@[id as int].operation == var.operation,
    {
        let id = self.nodes.len();
        let mut v = var;
        v.id = id;
        self.nodes.push(v);
        proof {
            assert(self.nodes@.take(id as int) =~= old(self).nodes@);
            assert forall|i: int| 0 <= i < self.nodes@.len() implies {
                &&& #[trigger] self.nodes@[i].id == i
                &&& forall|j: int| 0 <= j < operands(self.nodes@[i].operation).len()
                    ==> #[trigger] operands(self.nodes@[i].operation)[j] < i
            } by {
                if i < id {
                    assert(self.nodes@[i] == old(self).nodes@[i]);
                }
            }
        }
        id
    }

    /// Records the result of a binary operation on variables `a` and `b`: the new variable
    /// tracks gradients when either operand does, and then remembers the operation and starts
    /// with a zero gradient of the result's shape.
    pub fn record(&mut self, kind: BinaryOp, a: usize, b: usize, result: Tensor<T>) -> (id: usize)
        requires
            old(self).wf(),
            a < old(self).nodes@.len(),
            b < old(self).nodes@.len(),
            (result@.grad is Some || old(self).nodes@[a as int].requires_grad
                || old(self).nodes@[b as int].requires_grad) ==> prefix_fit(result@.shape),
        ensures
            id == old(self).nodes@.len(),
            final(self).wf(),
            final(self).nodes@.len() == old(self).nodes@.len() + 1,
            final(self).nodes@.take(id as int) == old(self).nodes@,
            ({
                let v = final(self).nodes@[id as int];
                let rg = old(self).nodes@[a as int].requires_grad || old(self).nodes@[b as int].requires_grad;
                &&& v.data@ == result@
                &&& v.requires_grad == rg
                &&& rg ==> v.operation == binary_operation::<T>(kind, a, b)
                &&& !rg ==> v.operation is Leaf
                &&& (rg || result@.grad is Some) ==> (v.grad matches Some(g) && zero_grad_tensor(g@, result@.shape))
                &&& !(rg || result@.grad is Some) ==> v.grad is None
            }),
    {
        let requires_grad = self.nodes[a].requires_grad || self.nodes[b].requires_grad;
        let mut v = Variable::new(result, 0);
        v.requires_grad = requires_grad;
        if requires_grad {
            v.operation = match kind {
                BinaryOp::Add => Operation::Add(a, b),
                BinaryOp::Sub => Operation::Sub(a, b),
                BinaryOp::Mul => Operation::Mul(a, b),
                BinaryOp::Div => Operation::Div(a, b),
            };
            v.grad = Some(Tensor::zeros(v.data.shape.clone(), false));
        }
        self.insert(v)
    }

    /// Sets the gradient of `root` before back-propagation: to `grad_output` where one is given,
    /// otherwise, for a single-element output, to `one`. A root without a gradient is left as it is.
    pub fn seed_gradient(&mut self, root: usize, grad_output: Option<&Tensor<T>>, one: T)
        requires
            old(self).wf(),
            root < old(self).nodes@.len(),
            old(self).nodes@[root as int].grad matches Some(g) ==> (grad_output matches Some(go)
                ==> go@.shape == g@.shape && go@.data.len() <= g@.data.len()),
        ensures
            final(self).wf(),
            final(self).nodes@.len() == old(self).nodes@.len(),
            forall|i: int| 0 <= i < old(self).nodes@.len() && i != root ==> #[trigger] final(self).nodes@[i]
                == old(self).nodes@[i],
            ({
                let before = old(self).nodes@[root as int];
                let after = final(self).nodes@[root as int];
                &&& after.data == before.data
                &&& after.requires_grad == before.requires_grad
                &&& after.operation == before.operation
                &&& after.id == before.id
                &&& match before.grad {
                    None => after.grad is None,
                    Some(g) => after.grad matches Some(h) && h@ == (TensorView {
                        data: seeded(g@.data, grad_output, one),
                        ..g@
                    }),
                }
            }),
    {
        let ghost old_nodes = self.nodes@;
        let node = &mut self.nodes[root];
        match &mut node.grad {
            Some(g) => {
                match grad_output {
                    Some(go) => {
                        let ghost g0 = g@;
                        let n = go.data.len();
                        let mut i: usize = 0;
                        proof {
                            assert(go@.data.take(0) + g0.data.skip(0) =~= g0.data);
                        }
                        while i < n
                            invariant
                                n == go@.data.len(),
                                n <= g0.data.len(),
                                i <= n,
                                g@ == (TensorView {
                                    data: go@.data.take(i as int) + g0.data.skip(i as int),
                                    ..g0
                                }),
                            decreases n - i,
                        {
                            let val = go.data[i];
                            g.set(i, val);
                            i += 1;
                            proof {
                                assert(go@.data.take(i as int) + g0.data.skip(i as int) =~= (go@.data.take(i - 1)
                                    + g0.data.skip(i - 1)).update(i - 1, val));
                            }
                        }
                        proof {
                            assert(go@.data.take(n as int) =~= go@.data);
                        }
                    },
                    None => {
                        if g.data.len() == 1 {
                            g.set(0, one);
                        }
                    },
                }
            },
            None => {},
        }
        proof {
            assert forall|i: int| 0 <= i < self.nodes@.len() implies {
                &&& #[trigger] self.nodes@[i].id == i
                &&& forall|j: int| 0 <= j < operands(self.nodes@[i].operation).len()
                    ==> #[trigger] operands(self.nodes@[i].operation)[j] < i
            } by {
                assert(old_nodes[i].id == i);
            }
        }
    }

    /// Depth-first walk from `v` that appends, operands first, every variable that `v`
    /// reaches and that the walk has not yet marked.
    fn build_topo(&self, v: usize, topo: &mut Vec<usize>, visited: &mut Vec<bool>)
        requires
            self.wf(),
            v < self.nodes@.len(),
            walk_state(self.nodes@, old(topo)@, old(visited)@),
        ensures
            walk_state(self.nodes@, final(topo)@, final(visited)@),
            old(topo)@.len() <= final(topo)@.len(),
            final(topo)@.take(old(topo)@.len() as int) == old(topo)@,
            !old(visited)@[v as int] ==> final(topo)@.len() > 0 && final(topo)@.last() == v,
            forall|x: int| 0 <= x < self.nodes@.len() ==> (#[trigger] final(visited)@[x] <==> (old(visited)@[x]
                || reaches(self.nodes@, v as int, x))),
            (final(topo)@, final(visited)@) == walk(self.nodes@, v as int, old(topo)@, old(visited)@),
        decreases v,
    {
        let ghost nodes = self.nodes@;
        let ghost topo0 = topo@;
        let ghost visited0 = visited@;
        if visited[v] {
            proof {
                assert(topo@.take(topo@.len() as int) =~= topo@);
                assert forall|x: int| 0 <= x < nodes.len() && reaches(nodes, v as int, x) implies #[trigger] visited@[x] by {
                    lemma_closed_holds_reached(self, topo@, visited@, v as int, x);
                }
            }
            return;
        }
        match &self.nodes[v].operation {
            Operation::Add(a, b) | Operation::Sub(a, b) | Operation::Mul(a, b) | Operation::Div(a, b) => {
                proof {
                    assert(nodes[v as int].id == v);
                    assert(operands(nodes[v as int].operation)[0] < v);
                    assert(operands(nodes[v as int].operation)[1] < v);
                }
                self.build_topo(*a, topo, visited);
                self.build_topo(*b, topo, visited);
            },
            Operation::Pow(a, _) | Operation::Tanh(a) | Operation::Relu(a) | Operation::Sigmoid(a) => {
                proof {
                    assert(nodes[v as int].id == v);
                    assert(operands(nodes[v as int].operation)[0] < v);
                }
                self.build_topo(*a, topo, visited);
            },
            Operation::Leaf => {},
        }
        let ghost topo1 = topo@;
        let ghost visited1 = visited@;
        proof {
            assert forall|x: int| 0 <= x < nodes.len() implies (#[trigger] visited1[x] <==> (visited0[x]
                || (x != v && reaches(nodes, v as int, x)))) by {
                let ops = operands(nodes[v as int].operation);
                if visited1[x] && !visited0[x] {
                    if ops.len() > 0 && reaches(nodes, ops[0] as int, x) {
                        lemma_reaches_backward(self, ops[0] as int, x);
                    } else if ops.len() > 1 {
                        lemma_reaches_backward(self, ops[1] as int, x);
                    }
                }
            }
            assert(!visited1[v as int]);
            assert(!listed(topo1, v as int));
        }
        visited.set(v, true);
        topo.push(v);
        proof {
            let t = topo@;
            let k = t.len() - 1;
            assert(t.take(topo0.len() as int) =~= topo0) by {
                assert(topo1.take(topo0.len() as int) =~= topo0);
            }
            assert forall|x: int| 0 <= x < nodes.len() implies (#[trigger] visited@[x] <==> listed(t, x)) by {
                if x == v {
                    assert(t[k] as int == x);
                } else {
                    if listed(t, x) {
                        let kk = choose|kk: int| 0 <= kk < t.len() && #[trigger] t[kk] as int == x;
                        assert(topo1[kk] as int == x);
                    }
                    if listed(topo1, x) {
                        let kk = choose|kk: int| 0 <= kk < topo1.len() && #[trigger] topo1[kk] as int == x;
                        assert(t[kk] as int == x);
                    }
                }
            }
            assert forall|k1: int, k2: int| 0 <= k1 < k2 < t.len() implies #[trigger] t[k1] != #[trigger] t[k2] by {
                if k2 == k {
                    assert(topo1[k1] == t[k1]);
                    if t[k1] == v {
                        assert(topo1[k1] as int == v as int);
                        assert(listed(topo1, v as int));
                    }
                } else {
                    assert(topo1[k1] == t[k1] && topo1[k2] == t[k2]);
                }
            }
            assert forall|kk: int, j: int|
                0 <= kk < t.len() && 0 <= j < operands(nodes[t[kk] as int].operation).len()
                    implies #[trigger] appears_before(t, kk, operands(nodes[t[kk] as int].operation)[j]) by {
                let o = operands(nodes[t[kk] as int].operation)[j];
                if kk == k {
                    assert(o < v);
                    assert(reaches(nodes, o as int, o as int));
                    assert(reaches(nodes, v as int, o as int));
                    assert(visited1[o as int]);
                    assert(listed(topo1, o as int));
                    let k2 = choose|k2: int| 0 <= k2 < topo1.len() && #[trigger] topo1[k2] as int == o as int;
                    assert(t[k2] == o);
                } else {
                    assert(topo1[kk] == t[kk]);
                    assert(appears_before(topo1, kk, o));
                    let k2 = choose|k2: int| 0 <= k2 < kk && #[trigger] topo1[k2] == o;
                    assert(t[k2] == o);
                }
            }
            assert forall|x: int| 0 <= x < nodes.len() implies (#[trigger] visited@[x] <==> (visited0[x]
                || reaches(nodes, v as int, x))) by {
                if x == v {
                    assert(reaches(nodes, v as int, v as int));
                } else {
                    assert(visited@[x] == visited1[x]);
                }
            }
        }
    }

    /// The variables that `root` depends on, itself included, each after its operands: the
    /// order in which they are reached by a depth-first walk from `root` that visits operands
    /// left to right and lists a variable once its operands are listed.
    pub fn topological_order(&self, root: usize) -> (order: Vec<usize>)
        requires
            self.wf(),
            root < self.nodes@.len(),
        ensures
            topologically_ordered(self.nodes@, order@),
            forall|x: int| 0 <= x < self.nodes@.len() ==> (listed(order@, x) <==> #[trigger] reaches(self.nodes@, root as int, x)),
            order@ == walk(self.nodes@, root as int, Seq::empty(), Seq::new(self.nodes@.len(), |i: int| false)).0,
            order@.len() > 0 && order@.last() == root,
    {
        let mut topo: Vec<usize> = Vec::new();
        let mut visited: Vec<bool> = Vec::new();
        proof {
            assert(topologically_ordered(self.nodes@, topo@));
        }
        let n = self.nodes.len();
        let mut i: usize = 0;
        while i < n
            invariant
                n == self.nodes@.len(),
                i <= n,
                visited@.len() == i,
                forall|j: int| 0 <= j < i ==> !#[trigger] visited@[j],
            decreases n - i,
        {
            visited.push(false);
            i += 1;
        }
        proof {
            assert(visited@ =~= Seq::new(self.nodes@.len(), |i: int| false));
            assert(topo@ =~= Seq::<usize>::empty());
        }
        self.build_topo(root, &mut topo, &mut visited);
        proof {
            assert forall|x: int| 0 <= x < self.nodes@.len() implies (listed(topo@, x) <==> #[trigger] reaches(self.nodes@, root as int, x)) by {
                assert(visited@[x] <==> listed(topo@, x));
            }
        }
        topo
    }
}

} // verus!
