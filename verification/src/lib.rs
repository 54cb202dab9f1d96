//! The verified core of a node of the EarthNet earthquake early-warning network.
//!
//! The node ingests signed observations, fuses them and reaches consensus, and emits
//! signed events that trigger client alarms. Trust model: an OFFICIAL source fires on
//! its own; PHONE sources require consensus of at least N correlated picks.
//!
//! What needs floating point, the wire protocol or the network is handed in by the
//! caller, as functions; contracts hold for whatever these return.

pub mod cluster;
pub mod double;
pub mod fusion;
pub mod geo;
pub mod history;
pub mod identity;
pub mod locate;
pub mod magnitude;
pub mod message;
pub mod reputation;
pub mod server;
pub mod text;
pub mod trust;

pub use identity::NodeIdentity;
pub use text::hex_decode;
