use mmwave::error::RadarInitError;
use mmwave::ports::{select_ports, DeviceProperties, Model, CLI_BAUD_RATE};

fn device(serial: Option<&str>, devname: Option<&str>) -> DeviceProperties {
    DeviceProperties {
        serial_short: serial.map(|s| s.to_string()),
        devname: devname.map(|s| s.to_string()),
    }
}

#[test]
fn model_names_patterns_and_rates() {
    assert_eq!(Model::AWR1843Boost.name(), "AWR1843Boost");
    assert_eq!(Model::AWR1843AOP.name(), "AWR1843AOP");
    assert_eq!(Model::AWR1843Boost.device_pattern(), "^/dev/ttyACM\\d+$");
    assert_eq!(Model::AWR1843AOP.device_pattern(), "^/dev/ttyUSB\\d+$");
    assert_eq!(Model::AWR1843Boost.data_baud_rate(), 921600);
    assert_eq!(Model::AWR1843AOP.data_baud_rate(), 115200);
    assert_eq!(CLI_BAUD_RATE, 115200);
    assert_eq!(Model::default(), Model::AWR1843Boost);
}

#[test]
fn select_ports_takes_first_two_matching_devices() {
    let devices = vec![
        device(Some("OTHER"), Some("/dev/ttyACM7")),
        device(Some("ABC123"), Some("/dev/ttyUSB0")),
        device(Some("ABC123"), Some("/dev/ttyACM0")),
        device(None, Some("/dev/ttyACM5")),
        device(Some("ABC123"), None),
        device(Some("ABC123"), Some("/dev/ttyACM1")),
        device(Some("ABC123"), Some("/dev/ttyACM2")),
    ];
    let (cli, data) = select_ports(&devices, "ABC123", Model::AWR1843Boost).unwrap();
    assert_eq!(cli.path, "/dev/ttyACM0");
    assert_eq!(cli.baud_rate, 115200);
    assert_eq!(data.path, "/dev/ttyACM1");
    assert_eq!(data.baud_rate, 921600);
}

#[test]
fn select_ports_follows_the_model_pattern() {
    let devices = vec![
        device(Some("S1"), Some("/dev/ttyACM0")),
        device(Some("S1"), Some("/dev/ttyUSB3")),
        device(Some("S1"), Some("/dev/ttyUSB4")),
    ];
    let (cli, data) = select_ports(&devices, "S1", Model::AWR1843AOP).unwrap();
    assert_eq!(cli.path, "/dev/ttyUSB3");
    assert_eq!(data.path, "/dev/ttyUSB4");
    assert_eq!(data.baud_rate, 115200);
}

#[test]
fn select_ports_rejects_names_that_only_contain_the_pattern() {
    let devices = vec![
        device(Some("S1"), Some("/dev/ttyACM0x")),
        device(Some("S1"), Some("x/dev/ttyACM1")),
        device(Some("S1"), Some("/dev/ttyACM")),
    ];
    match select_ports(&devices, "S1", Model::AWR1843Boost) {
        Err(RadarInitError::PortNotFound(which)) => assert_eq!(which, "CLI Port"),
        other => panic!("unexpected {:?}", other),
    }
}

#[test]
fn select_ports_reports_missing_cli_port() {
    let devices = vec![device(Some("OTHER"), Some("/dev/ttyACM0"))];
    match select_ports(&devices, "ABC123", Model::AWR1843Boost) {
        Err(RadarInitError::PortNotFound(which)) => assert_eq!(which, "CLI Port"),
        other => panic!("unexpected {:?}", other),
    }
    match select_ports(&Vec::new(), "ABC123", Model::AWR1843Boost) {
        Err(e) => assert_eq!(e.message(), "Port not found"),
        other => panic!("unexpected {:?}", other),
    }
}

#[test]
fn select_ports_reports_missing_data_port() {
    let devices = vec![
        device(Some("ABC123"), Some("/dev/ttyACM0")),
        device(Some("ABC123"), Some("/dev/ttyUSB1")),
    ];
    match select_ports(&devices, "ABC123", Model::AWR1843Boost) {
        Err(RadarInitError::PortNotFound(which)) => assert_eq!(which, "Data Port"),
        other => panic!("unexpected {:?}", other),
    }
}
