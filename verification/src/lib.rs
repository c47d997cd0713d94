//! Sparse coefficient-matrix primitives and the per-expression view that
//! flattens parameter-affine coefficient data into a coordinate-list tensor.
//!
//! Matrices are stored as column-major triplet lists; the scalar of each
//! nonzero is carried as an opaque 64-bit value word and never interpreted
//! by the index logic.

pub mod sparse;
pub mod tensor_representation;
pub mod view;
