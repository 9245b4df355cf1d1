//! Rebuilds per-thread call trees from timed trace intervals by containment,
//! merges the trees of all threads by label path, and renders the merged tree
//! as flame graph data.

pub mod call_tree;
pub mod thread_stack;
pub mod flamegraph;
pub mod render;
pub mod laws;
pub mod event;
pub mod label_mapping;
pub mod converters;
