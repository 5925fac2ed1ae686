//! Driver for Telink SWS programmers and the TC32 cores behind them.
//!
//! A programmer is reached through a byte transport ([`transport::Io`]).
//! [`telink_sws::TelinkSws`] speaks the framed command protocol over it and
//! turns flash and memory accesses into commands; [`tc32::Tc32`] debugs a TC32
//! core through the memory-mapped debug registers.

pub mod bytes;
pub mod commands;
pub mod crc;
pub mod error;
pub mod flash;
pub mod link;
pub mod packets;
pub mod protocol;
pub mod requests;
pub mod session;
pub mod slices;
pub mod tc32;
pub mod telink_sws;
pub mod text;
pub mod transport;
pub mod wire;
