# ghosenet

Tensors for machine learning with verified structure.

`src/` is the library, verified with Verus:

- `shape`: row-major sizes, flat offsets (`calc_offset`), multi-indices (`unravel_index`),
  checked element counts, and the laws that tie offsets and multi-indices together.
- `tensor`: the generic `Tensor<T>` (data, shape, gradient, producing operation) with element
  access, transpose, masks, selection, mapping and gradient bookkeeping.
- `ops`: broadcasting (`broadcast_shapes`, `map_indices_for_broadcast`, `broadcast_with`) and
  the matrix product (`matmul_with`).
- `nn`: activations, the linear layer, trainable parameters and the dropout pattern.
- `autograd`: computation graphs of variables and the order in which gradients flow back.
- `backprop`: the gradient rules of each operation (`propagate_with`) and back-propagation
  from an output (`backward_with`).

The element type is generic: where an operation needs element arithmetic, the caller passes it
as a closure, and the contracts say what the result is in terms of that closure.

`app/` instantiates the library with `f32`: the floating-point operations, the arithmetic of
activations and gradient rules, losses, random initialisation, the `Module` trait and
`Sequential`, and saving and loading tensors as JSON.
