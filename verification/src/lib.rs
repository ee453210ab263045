//! Positional bookkeeping for an ordered, view-backed list.
//!
//! A [`FactoryVecDeque`] keeps every element together with a position handle
//! that stays correct while elements are inserted and removed, records each
//! mutation in a pending log, and compiles that log into the list of view
//! operations that bring the materialized views back in line with the data.

pub mod change;
pub mod convergence;
pub mod dynamic_index;
pub mod factory_vec_deque;
pub mod laws;
pub mod model;

pub use change::{Change, ChangeLog, ChangeType, LogicError};
pub use dynamic_index::{DynamicIndex, IndexKey};
pub use factory_vec_deque::{FactoryVecDeque, OutOfRange};
pub use model::{DequeModel, Materialized, ViewOp};
