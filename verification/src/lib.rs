//! Reduction operators over n-dimensional arrays: the forward computations
//! (sum, product, minimum, maximum, mean, arg-max along axes) and their
//! gradients, with the shape and index logic proved correct.

pub mod shape;
pub mod array;
pub mod axes;
pub mod fold;
pub mod broadcast;
pub mod ops;
pub mod laws;
pub mod op_laws;
