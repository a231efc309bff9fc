//! The device half of the ADB protocol.
//!
//! A provider runs this so that `adb connect provider:port` talks to it rather
//! than to the phone. It answers the connection banner, runs ADB's
//! challenge-response authentication against keys it was given, and translates
//! every service the client opens onto a transport the provider already holds.
//!
//! Terminating the protocol here means the provider's key is the only one any
//! device ever trusts, and a client's key becomes an identity that can be
//! checked.

pub mod auth;
pub mod bridge;
pub mod key;
pub mod message;
