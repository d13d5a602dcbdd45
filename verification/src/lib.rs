//! Polls a wireless access point for the set of associated client devices,
//! tracks how that set evolves over time, classifies every change as a
//! `New`, `Connected` or `Disconnected` transition, plans the broker
//! publications that announce each transition, and renders the current
//! connection map as a line-oriented metrics text.
//!
//! This crate holds the verified core: the state-diff engine, the
//! consecutive-failure counter of the polling loop, the topic and payload
//! conventions of the notification dispatcher, the metrics renderer, the
//! remote command builder and the parser for the remote command's output.
//! Network, process and file concerns live outside the library.

pub mod command;
pub mod config;
pub mod counter;
pub mod notify;
pub mod parse;
pub mod state;
