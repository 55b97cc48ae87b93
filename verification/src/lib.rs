//! A reactive-computation engine: a directed acyclic graph of settable input
//! cells and derived compute cells that recompute automatically when an input
//! changes, firing registered callbacks exactly once per externally visible
//! change of a compute cell's settled value.

mod arith;
mod cells;
mod graph;
mod ids;
mod reactor;
mod record;

pub use arith::ArithFn;
pub use arith::wrap_sum;
pub use cells::Callback;
pub use cells::ComputeCell;
pub use cells::ComputeFn;
pub use cells::InputCell;
pub use graph::CellGraph;
pub use graph::CellSpec;
pub use ids::CallbackID;
pub use ids::CellID;
pub use ids::ComputeCellID;
pub use ids::InputCellID;
pub use ids::RemoveCallbackError;
pub use reactor::callbacks_updated;
pub use reactor::Reactor;
pub use record::Recorder;
