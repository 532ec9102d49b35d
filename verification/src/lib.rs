//! Map edit overlay engine: reversible, validated edits (lane retyping,
//! stop-sign turn priorities, traffic-signal phases) layered over an
//! immutable base road network, with persistence that round-trips.

pub mod alist;
pub mod apply;
pub mod codec;
pub mod control;
pub mod edits;
pub mod lane_edit;
pub mod lanes;
pub mod map;
pub mod session;
pub mod stop_signs;
pub mod store;
