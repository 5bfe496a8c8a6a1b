//! Reverse-mode automatic differentiation over scalars.
//!
//! A [`Graph`] is an arena of scalar nodes. Each node records the operation
//! that produced it from earlier nodes, so operand edges always point to
//! smaller indices and the graph is acyclic by construction. A [`Value`] is a
//! handle to one node. Backpropagation walks the arena from a root towards the
//! leaves and accumulates, in every node the root depends on, the derivative
//! of the root with respect to that node.
//!
//! The engine is generic over the number type through [`Scalar`]. [`Term`]
//! is a scalar that builds formulas instead of computing numbers. The small
//! feed-forward network in [`nn`] is built on top of the engine.
use vstd::prelude::*;

pub mod backward;
pub mod nn;
pub mod scalar;
pub mod symbolic;
pub mod text;
pub mod value;

pub use nn::Error;
pub use nn::Layer;
pub use nn::Mlp;
pub use nn::Neuron;
pub use scalar::Scalar;
pub use symbolic::Term;
pub use value::Graph;
pub use value::Operation;
pub use value::Value;

