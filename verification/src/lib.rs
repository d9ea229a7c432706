//! The verified core of an uncertified-DAG consensus node: the in-memory DAG
//! state, the commit and header synchronizers, the bookkeeping of what each
//! peer knows, and the rules that tie them together.
pub mod commit;
pub mod commit_syncer;
pub mod committee;
pub mod cordial_knowledge;
pub mod dag_state;
pub mod dag_visualizer;
pub mod error;
pub mod fault_injection;
pub mod header;
pub mod header_synchronizer;
pub mod refs;
pub mod sorted;
pub mod unordered;
