//! Maximum flow by the preflow-push (push-relabel) method.
//!
//! The library holds the whole algorithmic engine: the graph model with
//! per-node excess and height, the push and relabel primitives, the
//! discharge operation, the FIFO queue of active nodes, and the driver
//! loop that drains it. The value of a run is the excess accumulated at
//! the sink once no active node remains.

pub mod algo;
pub mod cuts;
pub mod graph;
pub mod reach;
pub mod sums;

pub use algo::discharge;
pub use algo::init_pushes;
pub use algo::push;
pub use algo::relabel;
pub use algo::run;
pub use graph::Edge;
pub use graph::Graph;
pub use graph::Node;
