//! Incremental parser for the BEAST binary framing format.
//!
//! A BEAST stream carries aircraft-surveillance messages as frames of the
//! shape `<sync> <type> <timestamp:6> <signal:1> <payload:N>`, where the
//! payload length `N` is fixed by the type tag and any literal sync byte
//! inside the payload is doubled on the wire. This crate reassembles such
//! frames from a byte stream delivered in arbitrarily-sized chunks,
//! resynchronizing after noise or unrecognized type tags.

pub mod config;
pub mod frame;
pub mod parser;

pub use config::Options;
pub use frame::BeastFrame;
pub use frame::BeastFrameType;
pub use frame::FrameModel;
pub use frame::BEAST_SYNC;
pub use parser::BeastParser;
pub use parser::ParseOutcome;
