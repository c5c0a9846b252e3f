//! Real-time event distribution and traffic governance.
//!
//! The crate centers on a topic-based publish/subscribe hub with bounded
//! per-subscriber buffers, a per-session delivery pacer, a fixed-window
//! request limiter, and the control-protocol state machine of a streaming
//! session. Around the core stand the small data types and helpers of the
//! services that feed it: authentication helpers, log-line parsers, and
//! cache bookkeeping.
//!
//! All time is carried as milliseconds on a monotonic clock, handed in by
//! the caller; nothing here reads a clock of its own.

pub mod auth;
pub mod errors;
pub mod models;
pub mod parsers;
pub mod pubsub;
pub mod rate_limit;
pub mod reorg;
pub mod session;
pub mod storage;
pub mod throttling;
pub mod ttl;
