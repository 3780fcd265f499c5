//! A peer-to-peer connection/stream multiplexing layer with a delta-state
//! trail-synchronization protocol on top.
//!
//! The [`network`] module turns an unreliable, callback-driven peer transport
//! into opaque handles over a pull-based event queue, multiplexing any number
//! of logical streams per connection. The [`snake`] module keeps a
//! growing/shrinking trail of points consistent between its authoritative
//! owner and remote mirrors, using incremental tail diffs guarded by a prefix
//! checksum ([`checksum`]) with full-resync recovery. The [`game`] module ties
//! the two together: roles, handshake, and the per-frame tick. All geometry is
//! integer-valued ([`geom`]).
//!
//! Nothing here performs I/O: the surrounding program feeds transport events
//! into the registry and transmits what the registry queues.

pub mod checksum;
pub mod game;
pub mod geom;
pub mod messages;
pub mod network;
pub mod painter;
pub mod snake;
