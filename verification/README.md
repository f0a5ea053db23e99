# reduction_ops

Reduction operators over n-dimensional arrays (sum, product, minimum,
maximum, mean and arg-max along axes) and their gradients, verified with
Verus.

- `src/shape.rs`: sizes of shapes and the arithmetic of row-major indices.
- `src/array.rs`: the array type, a shape and its elements in row-major order.
- `src/axes.rs`: axis arguments (negative axes, masks) and the order of folds.
- `src/fold.rs`: folding along one axis and along several; the arg-max of lanes.
- `src/broadcast.rs`: broadcasting into a larger shape, through `ndarray`.
- `src/ops.rs`: the operators, their forward computations and gradients.
- `src/laws.rs`: properties that relate several functions.
- `app/`: the operators on `ndarray` arrays of floating-point numbers.

Elements are of any `Copy` type; the arithmetic on them is passed in as
functions, and the contracts relate every result to the calls of those
functions that produced it.
