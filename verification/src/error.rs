//! Error types of the radar link.

use vstd::prelude::*;

verus! {

/// Why a radar could not be brought up.
#[derive(Debug, Clone)]
pub enum RadarInitError {
    PortUnavailable(String),
    PortNotFound(String),
    InaccessibleConfig(String),
}

/// Why a frame could not be read from a radar.
#[derive(Debug, Clone)]
pub enum RadarReadError {
    Disconnected,
    Timeout,
    NotConnected,
    ParseError(ParseError),
}

/// Why a command could not be written to a radar.
#[derive(Debug, Clone)]
pub enum RadarWriteError {
    PortUnavailable,
    NotConnected,
    Disconnected,
}

/// Why a byte sequence is not a well-formed frame.
#[derive(Debug, Clone)]
pub enum ParseError {
    DataLengthMismatch,
    MalformedData,
    UnimplementedTlvType(String),
}

/// What a [`ParseError`] says, with its text as characters.
pub enum ParseErrorView {
    DataLengthMismatch,
    MalformedData,
    UnimplementedTlvType(Seq<char>),
}

impl View for ParseError {
    type V = ParseErrorView;

    open spec fn view(&self) -> ParseErrorView {
        match self {
            ParseError::DataLengthMismatch => ParseErrorView::DataLengthMismatch,
            ParseError::MalformedData => ParseErrorView::MalformedData,
            ParseError::UnimplementedTlvType(s) => ParseErrorView::UnimplementedTlvType(s@),
        }
    }
}

impl ParseError {
    /// The human-readable text of the error.
    pub open spec fn spec_message(&self) -> Seq<char> {
        match self {
            ParseError::DataLengthMismatch => "Data Length Mismatch"@,
            ParseError::MalformedData => "Malformed Data"@,
            ParseError::UnimplementedTlvType(s) => "Unimplemented Tlv Type "@ + s@,
        }
    }

    pub fn message(&self) -> (r: String)
        ensures
            r@ == self.spec_message(),
    {
        match self {
            ParseError::DataLengthMismatch => String::from_str("Data Length Mismatch"),
            ParseError::MalformedData => String::from_str("Malformed Data"),
            ParseError::UnimplementedTlvType(s) => {
                let mut r = String::from_str("Unimplemented Tlv Type ");
                r.append(s.as_str());
                r
            },
        }
    }
}

impl RadarReadError {
    /// The human-readable text of the error.
    pub open spec fn spec_message(&self) -> Seq<char> {
        match self {
            RadarReadError::Disconnected => "Disconnected"@,
            RadarReadError::Timeout => "Timeout"@,
            RadarReadError::NotConnected => "Not Connected"@,
            RadarReadError::ParseError(e) => "Parse Error "@ + e.spec_message(),
        }
    }

    pub fn message(&self) -> (r: String)
        ensures
            r@ == self.spec_message(),
    {
        match self {
            RadarReadError::Disconnected => String::from_str("Disconnected"),
            RadarReadError::Timeout => String::from_str("Timeout"),
            RadarReadError::NotConnected => String::from_str("Not Connected"),
            RadarReadError::ParseError(e) => {
                let mut r = String::from_str("Parse Error ");
                let m = e.message();
                r.append(m.as_str());
                r
            },
        }
    }
}

impl RadarReadError {
    /// Whether the link to the radar is to be brought up again: every
    /// failure but a frame that did not parse, after which reading goes on.
    pub fn calls_for_reconnect(&self) -> (r: bool)
        ensures
            r == !(self is ParseError),
    {
        match self {
            RadarReadError::ParseError(_) => false,
            _ => true,
        }
    }
}

impl RadarInitError {
    /// The human-readable text of the error.
    pub open spec fn spec_message(&self) -> Seq<char> {
        match self {
            RadarInitError::PortUnavailable(_) => "Port unavailable"@,
            RadarInitError::PortNotFound(_) => "Port not found"@,
            RadarInitError::InaccessibleConfig(_) => "Inaccessible config"@,
        }
    }

    pub fn message(&self) -> (r: String)
        ensures
            r@ == self.spec_message(),
    {
        match self {
            RadarInitError::PortUnavailable(_) => String::from_str("Port unavailable"),
            RadarInitError::PortNotFound(_) => String::from_str("Port not found"),
            RadarInitError::InaccessibleConfig(_) => String::from_str("Inaccessible config"),
        }
    }
}

impl RadarWriteError {
    /// The human-readable text of the error.
    pub open spec fn spec_message(&self) -> Seq<char> {
        match self {
            RadarWriteError::PortUnavailable => "Port unavailable"@,
            RadarWriteError::NotConnected => "Not connected"@,
            RadarWriteError::Disconnected => "Disconnected"@,
        }
    }

    pub fn message(&self) -> (r: String)
        ensures
            r@ == self.spec_message(),
    {
        match self {
            RadarWriteError::PortUnavailable => String::from_str("Port unavailable"),
            RadarWriteError::NotConnected => String::from_str("Not connected"),
            RadarWriteError::Disconnected => String::from_str("Disconnected"),
        }
    }
}

} // verus!
