//! A streaming record protocol.
//!
//! A server-side emitter turns application records into self-delimiting JSON
//! frames and writes them back-to-back onto one long-lived byte stream; a
//! client-side decoder consumes that stream chunk by chunk, reconstructs frame
//! boundaries, and publishes each decoded record to a sink the moment it is
//! available, while tracking a single terminal status for the whole session.

pub mod codec;
pub mod emitter;
pub mod laws;
pub mod record;
pub mod scan;
pub mod session;
