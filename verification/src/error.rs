//! The crate's single error type.
//!
//! A plain enum so a caller can tell "this DBC is malformed" apart from
//! "this signal does not fit the frame it was decoded against" — those have
//! different fixes.

use vstd::prelude::*;

use crate::text::{append_decimal, append_hex_lower, decimal, hex_lower, push_str};

verus! {

/// Errors produced while parsing a DBC database or a `candump` log, or while
/// decoding or encoding a CAN frame.
#[derive(Debug, Clone, PartialEq, Eq)]
pub enum Error {
    /// The DBC text could not be parsed.
    DbcParse {
        /// 1-based line number in the DBC source.
        line: usize,
        /// What was wrong on that line.
        message: String,
    },
    /// A line of a `candump` log could not be read as a frame.
    CandumpParse {
        /// 1-based line number in the log.
        line: usize,
        /// What was wrong on that line.
        message: String,
    },
    /// A CAN identifier was outside the range its format permits.
    InvalidId {
        /// The identifier as given.
        raw: u32,
        /// Why it was rejected.
        reason: &'static str,
    },
    /// A frame payload exceeded the CAN FD maximum.
    FrameTooLong {
        /// The offending payload length in bytes.
        len: usize,
    },
    /// A data length code did not describe the payload it arrived with.
    DlcMismatch {
        /// The code as given.
        dlc: u8,
        /// Bytes the payload actually carried.
        len: usize,
    },
    /// A signal's bit range extended past the end of the frame it was
    /// decoded against, in bytes.
    SignalOutOfBounds {
        /// Name of the signal that did not fit.
        signal: String,
        /// Bytes the signal's layout requires.
        required: usize,
        /// Bytes the frame actually carried.
        available: usize,
    },
    /// A raw value had bits set above a signal's declared width.
    RawOutOfRange {
        /// Name of the signal being encoded.
        signal: String,
        /// The signal's width in bits.
        length: u8,
        /// The value that did not fit.
        raw: u64,
    },
    /// A session could not be built or written from what it was given.
    Export {
        /// What made the session impossible.
        reason: String,
    },
}

/// The text of an error, as it is shown to a person.
pub open spec fn error_text(e: Error) -> Seq<char> {
    match e {
        Error::DbcParse { line, message } => "DBC parse error on line "@ + decimal(line as nat)
            + ": "@ + message@,
        Error::CandumpParse { line, message } => "candump log parse error on line "@ + decimal(
            line as nat,
        ) + ": "@ + message@,
        Error::InvalidId { raw, reason } => "invalid CAN identifier 0x"@ + hex_lower(raw as nat)
            + ": "@ + reason@,
        Error::FrameTooLong { len } => "frame payload of "@ + decimal(len as nat)
            + " bytes exceeds the CAN FD maximum of 64"@,
        Error::DlcMismatch { dlc, len } => "data length code "@ + decimal(dlc as nat)
            + " does not describe a payload of "@ + decimal(len as nat) + " byte(s)"@,
        Error::SignalOutOfBounds { signal, required, available } => "signal `"@ + signal@
            + "` needs "@ + decimal(required as nat) + " byte(s) but the frame carries "@
            + decimal(available as nat),
        Error::RawOutOfRange { signal, length, raw } => "raw value 0x"@ + hex_lower(raw as nat)
            + " does not fit in the "@ + decimal(length as nat) + " bit(s) of signal `"@ + signal@
            + "`"@,
        Error::Export { reason } => "cannot export: "@ + reason@,
    }
}

impl Error {
    /// The error as a line of text for a person to read.
    pub fn describe(&self) -> (s: String)
        ensures
            s@ == error_text(*self),
    {
        let mut s = String::new();
        match self {
            Error::DbcParse { line, message } => {
                push_str(&mut s, "DBC parse error on line ");
                append_decimal(&mut s, *line as u64);
                push_str(&mut s, ": ");
                push_str(&mut s, message.as_str());
            },
            Error::CandumpParse { line, message } => {
                push_str(&mut s, "candump log parse error on line ");
                append_decimal(&mut s, *line as u64);
                push_str(&mut s, ": ");
                push_str(&mut s, message.as_str());
            },
            Error::InvalidId { raw, reason } => {
                push_str(&mut s, "invalid CAN identifier 0x");
                append_hex_lower(&mut s, *raw as u64);
                push_str(&mut s, ": ");
                push_str(&mut s, reason);
            },
            Error::FrameTooLong { len } => {
                push_str(&mut s, "frame payload of ");
                append_decimal(&mut s, *len as u64);
                push_str(&mut s, " bytes exceeds the CAN FD maximum of 64");
            },
            Error::DlcMismatch { dlc, len } => {
                push_str(&mut s, "data length code ");
                append_decimal(&mut s, *dlc as u64);
                push_str(&mut s, " does not describe a payload of ");
                append_decimal(&mut s, *len as u64);
                push_str(&mut s, " byte(s)");
            },
            Error::SignalOutOfBounds { signal, required, available } => {
                push_str(&mut s, "signal `");
                push_str(&mut s, signal.as_str());
                push_str(&mut s, "` needs ");
                append_decimal(&mut s, *required as u64);
                push_str(&mut s, " byte(s) but the frame carries ");
                append_decimal(&mut s, *available as u64);
            },
            Error::RawOutOfRange { signal, length, raw } => {
                push_str(&mut s, "raw value 0x");
                append_hex_lower(&mut s, *raw);
                push_str(&mut s, " does not fit in the ");
                append_decimal(&mut s, *length as u64);
                push_str(&mut s, " bit(s) of signal `");
                push_str(&mut s, signal.as_str());
                push_str(&mut s, "`");
            },
            Error::Export { reason } => {
                push_str(&mut s, "cannot export: ");
                push_str(&mut s, reason.as_str());
            },
        }
        assert(s@ =~= error_text(*self));
        s
    }
}

} // verus!
