# gtensor

Runtime-rank tensors and first-order reverse-mode differentiation, verified with Verus.

- `src/` is the verified library. Numbers are abstract: the traits `Arith` and `Scalars` name the
  arithmetic, and a contract says of each element from which elements it comes and through which
  operations, in which order.
- `tests/` runs the library on IEEE 754 numbers.
- `app/` is ordinary Rust around the library: IEEE 754 numbers, one graph per process with free
  functions and method sugar, and Metal devices for large FP32 products.

Layers, from the bottom: `index`, `shape`, `storage`, `tensor`, `views` (index arithmetic and
views); `par`, `elementwise`, `unary`, `cpu`, `reduce`, `matmul`, `indexing`, `joining`, `rows`,
`slopes`, `lookup`, `loss`, `scan`, `fused` (values); `tape`, `dag` (the graph and its walk);
`rules`, `routes`, `nodes` (reverse rules); `products` (the matrix products that a rule asks for,
apart from where they are computed, for a reverse pass that is run in steps); `ad*`, `extremes`
(operations that record themselves); `softmax`, `classes`, `nn`, `optim` (layers, losses,
optimizers); `devices`, `gpu` (which devices compute, and how a product is shared out among them).

Modules of laws state what holds across the others: `laws`, `dag`, `repeat` (walks and reverse
passes, and what repeating them gives), `outline`, `pieces`, `fitting` (every gradient has the shape
of what it is the gradient of), `block`, `block_shapes` (the fused block against single operations,
and the shapes of its slopes), `block_law` (the fused block's gradients are those of single
operations, for an arithmetic that is a commutative ring; on the way to it `ring`, `widened`,
`block_grads`, `block_flow`, `block_graph` and `unrolled`), `masking` (what the weights of the
masked loss decide), `offloaded` (what devices compute is what the CPU computes).
