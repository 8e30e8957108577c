use crate::text::{decimal_text, digits};
use vstd::prelude::*;

verus! {

/// Why a reply of the daemon was not a table.
#[derive(Debug, Clone, Copy, PartialEq, Eq, Structural)]
pub enum ProtocolFault {
    /// A line carrying `END` or `ERROR` came before the table was complete.
    Sentinel,
    /// The header line announced the table without naming a single field.
    EmptyHeader,
    /// A row held `got` values under a header of `expected` fields.
    LengthMismatch { got: usize, expected: usize },
}

/// Every way in which a session with the daemon or a scan of its log fails.
#[derive(Debug, Clone, Copy, PartialEq, Eq, Structural)]
pub enum Error {
    /// The server name is not made of lower-case letters and digits alone.
    InvalidName,
    /// The administrative socket could not be reached. Whoever owns the
    /// connection reports it.
    ConnectFailed,
    /// The stream ended while more lines were expected.
    UnexpectedEof,
    /// The daemon's reply broke the tabular format.
    ProtocolError(ProtocolFault),
    /// A log line is not a well-formed syslog message.
    BadEnvelope,
    /// The log transport gave no timestamp, or one that names no instant.
    BadTimestamp,
    /// The message body does not consist of nine words.
    MalformedMessage,
    /// The peer address is not an IP address with a port.
    BadAddress,
    /// The last word of the message names no known event.
    UnknownEvent,
    /// The log file could not be opened. Whoever reads the file reports it.
    LogUnavailable,
}

impl ProtocolFault {
    /// The fault in words.
    pub open spec fn text(self) -> Seq<char> {
        match self {
            ProtocolFault::Sentinel => "unexpected END or ERROR line"@,
            ProtocolFault::EmptyHeader => "header names no field"@,
            ProtocolFault::LengthMismatch { got, expected } => "length mismatch: got "@ + digits(
                got as nat,
            ) + ", expected "@ + digits(expected as nat),
        }
    }

    /// The fault in words.
    pub fn message(&self) -> (message: String)
        ensures
            message@ == self.text(),
    {
        match self {
            ProtocolFault::Sentinel => String::from_str("unexpected END or ERROR line"),
            ProtocolFault::EmptyHeader => String::from_str("header names no field"),
            ProtocolFault::LengthMismatch { got, expected } => {
                let mut message = String::from_str("length mismatch: got ");
                message.append(decimal_text(*got).as_str());
                message.append(", expected ");
                message.append(decimal_text(*expected).as_str());
                message
            },
        }
    }
}

impl Error {
    /// The failure in words.
    pub open spec fn text(self) -> Seq<char> {
        match self {
            Error::InvalidName => "server name is not made of lower-case letters and digits"@,
            Error::ConnectFailed => "could not connect to the management socket"@,
            Error::UnexpectedEof => "stream ended unexpectedly"@,
            Error::ProtocolError(fault) => "protocol error: "@ + fault.text(),
            Error::BadEnvelope => "log line is no syslog message"@,
            Error::BadTimestamp => "syslog message has no usable timestamp"@,
            Error::MalformedMessage => "message does not consist of nine words"@,
            Error::BadAddress => "invalid socket address in message"@,
            Error::UnknownEvent => "unknown event"@,
            Error::LogUnavailable => "could not open the log file"@,
        }
    }

    /// The failure in words.
    pub fn message(&self) -> (message: String)
        ensures
            message@ == self.text(),
    {
        match self {
            Error::InvalidName => String::from_str(
                "server name is not made of lower-case letters and digits",
            ),
            Error::ConnectFailed => String::from_str("could not connect to the management socket"),
            Error::UnexpectedEof => String::from_str("stream ended unexpectedly"),
            Error::ProtocolError(fault) => {
                let mut message = String::from_str("protocol error: ");
                message.append(fault.message().as_str());
                message
            },
            Error::BadEnvelope => String::from_str("log line is no syslog message"),
            Error::BadTimestamp => String::from_str("syslog message has no usable timestamp"),
            Error::MalformedMessage => String::from_str("message does not consist of nine words"),
            Error::BadAddress => String::from_str("invalid socket address in message"),
            Error::UnknownEvent => String::from_str("unknown event"),
            Error::LogUnavailable => String::from_str("could not open the log file"),
        }
    }
}

} // verus!
