//! Backend-independent compute-graph library: kernel layouts, binding
//! validation, dispatch plans, buffer pooling and device placement, with
//! their contracts proved by Verus.

pub mod backend;
pub mod backends;
pub mod id;
pub mod mesh;
pub mod nn;
pub mod placement;
pub mod pool;
pub mod resolver;
pub mod shader;
pub mod tensor;
pub mod text;
pub mod traits;

pub use backend::{Binding, Dtype, TensorMode};
