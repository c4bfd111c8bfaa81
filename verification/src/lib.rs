//! A two-level segregated fit allocator over an abstract address range.
pub mod allocated;
pub mod bits;
pub mod counting;
pub mod errors;
pub mod level_core;
pub mod monagement;
pub mod monagement_core;
pub mod monagement_init;
pub mod node_core;
pub mod tools;

pub use allocated::{Allocated, AllocatedView};
pub use level_core::{FirstLevel, SecondLevel, SecondLevelLink};
pub use monagement::Monagement;
pub use monagement_core::MonagementCore;
pub use monagement_init::{MonagementInit, SelectorOpt};
pub use node_core::{Node, NodeStatus, SlIdx};
pub use tools::get_fl_sl;
