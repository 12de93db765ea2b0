//! Recognising the two serial ports of a radar among the devices of the host.
//!
//! A radar shows up as two serial devices that carry its serial number: the
//! first one found is its command port, the second its data port. Which
//! device names count depends on the model.

use vstd::prelude::*;
use crate::error::RadarInitError;

verus! {

/// The radar boards that are supported.
#[derive(Debug, Clone, Copy, PartialEq, Eq, Structural, Hash)]
pub enum Model {
    AWR1843Boost,
    AWR1843AOP,
}

impl Default for Model {
    fn default() -> (m: Model)
        ensures
            m == Model::AWR1843Boost,
    {
        Model::AWR1843Boost
    }
}

impl Model {
    /// The name of the model.
    pub open spec fn spec_name(self) -> Seq<char> {
        match self {
            Model::AWR1843Boost => "AWR1843Boost"@,
            Model::AWR1843AOP => "AWR1843AOP"@,
        }
    }

    pub fn name(&self) -> (r: &'static str)
        ensures
            r@ == self.spec_name(),
    {
        match self {
            Model::AWR1843Boost => "AWR1843Boost",
            Model::AWR1843AOP => "AWR1843AOP",
        }
    }

    /// The pattern that the device names of the model's ports match.
    pub open spec fn spec_device_pattern(self) -> Seq<char> {
        match self {
            Model::AWR1843Boost => "^/dev/ttyACM\\d+$"@,
            Model::AWR1843AOP => "^/dev/ttyUSB\\d+$"@,
        }
    }

    pub fn device_pattern(&self) -> (r: &'static str)
        ensures
            r@ == self.spec_device_pattern(),
    {
        match self {
            Model::AWR1843Boost => "^/dev/ttyACM\\d+$",
            Model::AWR1843AOP => "^/dev/ttyUSB\\d+$",
        }
    }

    /// The baud rate of the data port.
    pub open spec fn spec_data_baud_rate(self) -> u32 {
        match self {
            Model::AWR1843Boost => 921600,
            Model::AWR1843AOP => 115200,
        }
    }

    pub fn data_baud_rate(&self) -> (r: u32)
        ensures
            r == self.spec_data_baud_rate(),
    {
        match self {
            Model::AWR1843Boost => 921600,
            Model::AWR1843AOP => 115200,
        }
    }
}

/// The baud rate of every command port.
pub const CLI_BAUD_RATE: u32 = 115200;

/// `regex::Regex::new(pattern)` succeeds.
pub uninterp spec fn regex_compiles(pattern: Seq<char>) -> bool;

/// `regex::Regex::is_match` of the regex compiled from `pattern`, on `haystack`.
pub uninterp spec fn regex_is_match(pattern: Seq<char>, haystack: Seq<char>) -> bool;

/// Calls `regex::Regex::new(pattern)` and, when that succeeds,
/// `Regex::is_match(haystack)` on the result. Claims: the result is present
/// exactly when the pattern compiles, and is then the answer of `is_match`;
/// both depend on their arguments alone.
#[verifier::external_body]
fn regex_match(pattern: &str, haystack: &str) -> (r: Option<bool>)
    ensures
        r is Some <==> regex_compiles(pattern@),
        r matches Some(b) ==> b == regex_is_match(pattern@, haystack@),
{
    match regex::Regex::new(pattern) {
        Ok(re) => Some(re.is_match(haystack)),
        Err(_) => None,
    }
}

/// `name` is the device name of a port of a radar of this model.
pub open spec fn is_port_name(model: Model, name: Seq<char>) -> bool {
    regex_compiles(model.spec_device_pattern()) && regex_is_match(model.spec_device_pattern(), name)
}

/// A serial port to open: its device path and baud rate.
#[derive(Debug, Clone, PartialEq, Eq)]
pub struct PortDescriptor {
    pub path: String,
    pub baud_rate: u32,
}

/// The properties of a host device that identify a radar port: its short
/// serial number and its device name, each absent where the device has none
/// or it is not UTF-8.
#[derive(Debug, Clone, PartialEq, Eq)]
pub struct DeviceProperties {
    pub serial_short: Option<String>,
    pub devname: Option<String>,
}

pub struct DevicePropertiesView {
    pub serial_short: Option<Seq<char>>,
    pub devname: Option<Seq<char>>,
}

impl View for DeviceProperties {
    type V = DevicePropertiesView;

    open spec fn view(&self) -> DevicePropertiesView {
        DevicePropertiesView {
            serial_short: match &self.serial_short {
                Some(s) => Some(s@),
                None => None,
            },
            devname: match &self.devname {
                Some(s) => Some(s@),
                None => None,
            },
        }
    }
}

/// The device is a port of the radar with this serial number and model.
pub open spec fn is_radar_port(d: DevicePropertiesView, serial: Seq<char>, model: Model) -> bool {
    d.serial_short == Some(serial) && d.devname is Some && is_port_name(model, d.devname->0)
}

/// The device names of the radar's ports, in the order the devices come.
pub open spec fn radar_port_names(devices: Seq<DevicePropertiesView>, serial: Seq<char>, model: Model) -> Seq<Seq<char>>
    decreases devices.len(),
{
    if devices.len() == 0 {
        Seq::empty()
    } else {
        let rest = radar_port_names(devices.drop_last(), serial, model);
        if is_radar_port(devices.last(), serial, model) {
            rest.push(devices.last().devname->0)
        } else {
            rest
        }
    }
}

fn string_eq(a: &String, b: &String) -> (r: bool)
    ensures
        r == (a@ == b@),
{
    *a == *b
}

/// Picks the command and data ports of the radar with this serial number
/// among `devices`: the first and second port found. The command port runs
/// at [`CLI_BAUD_RATE`], the data port at the model's data rate.
pub fn select_ports(devices: &Vec<DeviceProperties>, serial: &str, model: Model) -> (r: Result<
    (PortDescriptor, PortDescriptor),
    RadarInitError,
>)
    ensures
        ({
            let names = radar_port_names(devices@.map_values(|d: DeviceProperties| d@), serial@, model);
            match r {
                Ok((cli, data)) => {
                    &&& names.len() >= 2
                    &&& cli.path@ == names[0]
                    &&& cli.baud_rate == CLI_BAUD_RATE
                    &&& data.path@ == names[1]
                    &&& data.baud_rate == model.spec_data_baud_rate()
                },
                Err(RadarInitError::PortNotFound(which)) => {
                    ||| names.len() == 0 && which@ == "CLI Port"@
                    ||| names.len() == 1 && which@ == "Data Port"@
                },
                Err(_) => false,
            }
        }),
{
    let ghost views = devices@.map_values(|d: DeviceProperties| d@);
    let serial_string = serial.to_owned();
    let pattern = model.device_pattern();
    let mut cli_port: Option<PortDescriptor> = None;
    let mut data_port: Option<PortDescriptor> = None;
    let mut i: usize = 0;
    while i < devices.len()
        invariant
            0 <= i <= devices@.len(),
            views == devices@.map_values(|d: DeviceProperties| d@),
            serial_string@ == serial@,
            pattern@ == model.spec_device_pattern(),
            ({
                let names = radar_port_names(views.subrange(0, i as int), serial@, model);
                &&& (cli_port is None <==> names.len() == 0)
                &&& (cli_port matches Some(p) ==> p.path@ == names[0] && p.baud_rate == CLI_BAUD_RATE)
                &&& (data_port is None <==> names.len() <= 1)
                &&& (data_port matches Some(p) ==> p.path@ == names[1] && p.baud_rate
                    == model.spec_data_baud_rate())
            }),
        decreases devices@.len() - i,
    {
        let d = &devices[i];
        proof {
            assert(views.subrange(0, i + 1).drop_last() =~= views.subrange(0, i as int));
            assert(views.subrange(0, i + 1).last() == d@);
        }
        let serial_matches = match &d.serial_short {
            Some(s) => string_eq(s, &serial_string),
            None => false,
        };
        if serial_matches {
            if let Some(name) = &d.devname {
                let is_port = match regex_match(pattern, name.as_str()) {
                    Some(b) => b,
                    None => false,
                };
                if is_port {
                    if cli_port.is_none() {
                        cli_port = Some(PortDescriptor { path: name.clone(), baud_rate: CLI_BAUD_RATE });
                    } else if data_port.is_none() {
                        data_port = Some(PortDescriptor { path: name.clone(), baud_rate: model.data_baud_rate() });
                    }
                }
            }
        }
        i += 1;
    }
    assert(views.subrange(0, devices@.len() as int) =~= views);
    match (cli_port, data_port) {
        (Some(cli), Some(data)) => Ok((cli, data)),
        (None, _) => Err(RadarInitError::PortNotFound(String::from_str("CLI Port"))),
        (Some(_), None) => Err(RadarInitError::PortNotFound(String::from_str("Data Port"))),
    }
}

} // verus!
