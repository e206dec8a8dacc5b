//! A reverse-mode automatic-differentiation engine over scalar values,
//! with a small feed-forward network layer built on top of it.
//!
//! Scalars are IEEE-754 doubles carried as raw `u64` bit patterns; the
//! arithmetic itself is performed by outside crates behind named,
//! uninterpreted operations, and everything else — graph construction,
//! the backward traversal, and the network layer — is verified against
//! an exact functional model.

pub mod scalar;
pub mod value;
pub mod neuron;
pub mod layer;
pub mod mlp;

pub use crate::value::Graph;
pub use crate::value::Value;
pub use crate::neuron::Neuron;
pub use crate::layer::Layer;
pub use crate::mlp::MLP;
