//! Control-plane core of a desktop bandwidth limiter: parsers for the
//! socket-listing and interface-statistics tools, the line-oriented control
//! protocol spoken to the traffic-shaping backend, and the per-row limit
//! state machine that decides which control messages are sent.

pub mod backend;
pub mod limit;
pub mod net;
pub mod protocol;
pub mod text;
