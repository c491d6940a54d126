//! A verified engine for discovering peers of a LAN file-transfer
//! application over UDP broadcast.
//!
//! The engine is split into small, independently specified pieces:
//!
//! - [`address`]: plain IPv4 addresses and their dotted-decimal text form.
//! - [`descriptor`]: the identity record a host announces about itself.
//! - [`codec`]: the wire format; envelopes round-trip exactly through it.
//! - [`registry`]: the deduplicated, address-keyed table of visible peers,
//!   together with proofs that admission is idempotent, self-excluding and
//!   order-insensitive.
//! - [`session`]: the lifecycle of one discovery session and the
//!   per-component policies for transport events.
//! - [`terminal`]: the selectable list a display collaborator renders.
//!
//! All socket, thread and platform work lives outside this crate; the
//! functions here compute over plain values and carry full contracts.

pub mod address;
pub mod codec;
pub mod descriptor;
pub mod registry;
pub mod session;
pub mod terminal;
