//! An in-memory, versioned, indexed store of named state variables.
//!
//! A state holds one cell per variable. A cell carries the variable's current
//! value, an optional proposed next value, the value it had before the last
//! change, and an optional delayed change. Proposals accumulate in the cells
//! and one commit step promotes all of them. Variables are found by a
//! hierarchical path; a resolved path can be cached as a handle that stays
//! valid until the set of paths of the state changes.

pub mod generation;
pub mod order;
pub mod paths;
pub mod projection;
pub mod sperror;
pub mod state_value;
pub mod state_view;
pub mod states;
pub mod stream_buffer;
pub mod values;

pub use order::Rank;
pub use paths::{PathView, SPPath};
pub use projection::StateProjection;
pub use sperror::{SPError, SPResult};
pub use state_value::{AssignStateValue, AssignView, CellView, Delay, DelayView, StateValue};
pub use state_view::{HandleView, StateView};
pub use states::{SPState, StatePath};
pub use stream_buffer::{MergeBuffer, Offer, Step};
pub use values::{SPValue, ToSPValue, ValueView};
