//! Verified core of the lan-mouse input and clipboard protocols.
//!
//! - [`batch`]: the batched binary datagram format for hot-path input events
//!   (encoder with motion coalescing, decoder with sequence staleness check);
//!   [`batch_laws`]: its round trip and conservation properties.
//! - [`clipboard`]: selection state of a clipboard session (loop suppression
//!   of our own writes, read checks, size-limited reading);
//!   [`clipboard_laws`]: properties over sequences of its events.
//! - [`clipboard_sync`]: decisions of the clipboard sync daemon (public keys
//!   in hex, peer list, allow list, push decision, handshake framing);
//!   [`sync_laws`]: its list checks look at every entry, in any order.
use vstd::prelude::*;

pub mod batch;
pub mod batch_laws;
pub mod clipboard;
pub mod clipboard_laws;
pub mod clipboard_sync;
pub mod sync_laws;

verus! {

} // verus!
