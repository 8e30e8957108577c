//! Two decoders for the text that an OpenVPN daemon gives out: the tables
//! that its management interface sends in reply to a command, and the
//! connection events in its log.
//!
//! The library decides and the caller does the input and output: it reads
//! the lines from the socket or the file and hands them over one at a time.

pub mod addr;
pub mod envelope;
pub mod error;
pub mod logs;
pub mod output;
pub mod socket;
pub mod table;
pub mod text;
