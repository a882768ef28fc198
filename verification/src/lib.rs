//! A deduplication cache for a chat-bot image dispatcher.
//!
//! The library keeps, per scope (for example one chat community), a bounded
//! record of identifiers that were already shown, so that a freshly fetched
//! candidate can be skipped if it was delivered recently.  It consists of:
//!
//! - [`dedup::Queue`]: one scope's fixed-capacity, insertion-ordered set with
//!   strict FIFO eviction and a derived hash index for constant-time lookups;
//! - [`scoped::ScopedCache`]: a lazily populated mapping from scope key to
//!   its [`dedup::Queue`];
//! - [`codec`]: the on-disk representation of a [`scoped::ScopedCache`] and
//!   its validating decoder;
//! - [`coordinator::SaveCoordinator`]: the state machine that coalesces dirty
//!   signals into at most one pending save cycle;
//! - [`select`]: the pure candidate filtering and ranking used by the request
//!   path.
//!
//! File and network I/O stay outside the library; callers hand in plain
//! values and bytes.

pub mod dedup;
pub mod scoped;
pub mod codec;
pub mod coordinator;
pub mod select;
