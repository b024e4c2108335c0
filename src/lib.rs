//! Telemetry aggregation and streaming core of an environmental sensor node.
//!
//! The library holds the sensor snapshot model, the sampling cycle policy,
//! the telemetry channel between the sampling loop and its consumers, the
//! diagnostic log ring, the streaming connection state machine and the binary
//! wire format of telemetry messages.
use vstd::prelude::*;

pub mod sensors;
pub mod channel;
pub mod remote_log;
pub mod wire;
pub mod decode;
pub mod markup;
pub mod ws;
pub mod laws;
