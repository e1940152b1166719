//! Four-level x86_64 page tables: entries, the table memory, the executor
//! that edits one hierarchy, and the policy engine above it.

pub mod entry;
pub mod table;
pub mod walk;
pub mod exco;
pub mod space;
pub mod polen;
pub mod report;
pub mod frame;
pub mod run;
pub mod cow;
pub mod remap;
