//! Bluetooth HCI offload proxy core: a bit-exact codec for a recognized
//! subset of HCI commands, events and ISO data packets, and the LE-Audio
//! offload proxy state machine with its credit-tracked transmit arbiter.

pub mod arbiter;
pub mod command;
pub mod data;
pub mod event;
pub mod hal;
pub mod proxy;
pub mod reader;
pub mod service;
pub mod status;
pub mod wire;
pub mod writer;
