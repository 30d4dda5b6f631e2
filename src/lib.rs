//! The coordination core of a fixed-size worker pool: an ordered dispatch
//! queue whose every message goes to exactly one worker, the state of each
//! worker, and the two-phase shutdown protocol. Threads, locks and blocking
//! are left to the caller; every decision they act on is made and proved here.

pub mod message;
pub mod dispatch;
pub mod shutdown;
