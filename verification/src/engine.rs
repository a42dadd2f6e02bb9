//! The domain store and the machinery that runs on top of it.

pub mod assignments_integer;
pub mod assignments_view;
pub mod assignments_laws;
pub mod conflict_analysis;
pub mod cp_engine_data_structures;
pub mod domain_width;
pub mod flattened_variable;
pub mod propagation;
pub mod propagator_queue;
pub mod reason_store;
pub mod sat;
pub mod search_space;
pub mod solutions;
pub mod watch_list_cp;
