//! Verified core of a bridge between a USB-serial Meshtastic radio and UDP
//! multicast: serial framing, channel crypto, Raven channel configuration and
//! the serial handshake decisions.

pub mod crypto;
pub mod json;
pub mod raven;
pub mod serial;
pub mod serial_framing;
pub mod text;

