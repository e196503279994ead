//! Consumer side of a remote execution-event stream: decoding of wire frames
//! into domain events, reconstruction of per-block account-state deltas, and
//! the per-subscription policy that skips malformed frames and tells a clean
//! end from a transport failure.

pub mod bytes;
pub mod channel;
pub mod codec;
pub mod decode;
pub mod delta;
pub mod lifecycle;
pub mod logs;
