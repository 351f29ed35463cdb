//! An arithmetic computation graph: a directed acyclic graph of input,
//! constant, addition, multiplication and hint nodes, with value propagation
//! from assigned inputs and equality constraints checked over final values.

pub mod builder;
pub mod graph;
pub mod hints;
pub mod laws;

pub use graph::HintFn;
pub use graph::Node;
pub use graph::NodeId;
pub use graph::Op;
pub use graph::ZeroHint;
pub use hints::DivHint;
pub use hints::SqrtHint;
pub use builder::Builder;
