use mmwave::error::{ParseError, RadarInitError, RadarReadError, RadarWriteError};

#[test]
fn parse_error_texts() {
    assert_eq!(ParseError::DataLengthMismatch.message(), "Data Length Mismatch");
    assert_eq!(ParseError::MalformedData.message(), "Malformed Data");
    assert_eq!(
        ParseError::UnimplementedTlvType("9".to_string()).message(),
        "Unimplemented Tlv Type 9"
    );
}

#[test]
fn read_error_messages() {
    assert_eq!(RadarReadError::Disconnected.message(), "Disconnected");
    assert_eq!(RadarReadError::Timeout.message(), "Timeout");
    assert_eq!(RadarReadError::NotConnected.message(), "Not Connected");
    assert_eq!(
        RadarReadError::ParseError(ParseError::MalformedData).message(),
        "Parse Error Malformed Data"
    );
    assert_eq!(
        RadarReadError::ParseError(ParseError::UnimplementedTlvType("12".to_string())).message(),
        "Parse Error Unimplemented Tlv Type 12"
    );
}

#[test]
fn init_and_write_error_messages() {
    assert_eq!(RadarInitError::PortUnavailable("x".to_string()).message(), "Port unavailable");
    assert_eq!(RadarInitError::PortNotFound("CLI Port".to_string()).message(), "Port not found");
    assert_eq!(
        RadarInitError::InaccessibleConfig("f".to_string()).message(),
        "Inaccessible config"
    );
    assert_eq!(RadarWriteError::PortUnavailable.message(), "Port unavailable");
    assert_eq!(RadarWriteError::NotConnected.message(), "Not connected");
    assert_eq!(RadarWriteError::Disconnected.message(), "Disconnected");
}

#[test]
fn read_errors_that_call_for_reconnect() {
    assert!(RadarReadError::Disconnected.calls_for_reconnect());
    assert!(RadarReadError::NotConnected.calls_for_reconnect());
    assert!(RadarReadError::Timeout.calls_for_reconnect());
    assert!(!RadarReadError::ParseError(ParseError::MalformedData).calls_for_reconnect());
}
