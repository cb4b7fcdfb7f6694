//! Data path of a low-overhead tracing library: per-thread byte rings, the
//! global staging store that batches framed packets, the wire framing between
//! sender and receiver, and the receiver's trace-event records.

pub mod codec;
pub mod fifo;
pub mod global_storage;
pub mod perfetto_format;
pub mod receiver;
pub mod sender;
