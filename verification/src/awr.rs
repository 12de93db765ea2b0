//! The description of an AWR radar device as a configuration gives it.

use vstd::prelude::*;
use crate::ports::Model;

verus! {

/// The title of an AWR device: its model and serial number.
pub fn awr_title(model: Model, serial: &str) -> (r: String)
    ensures
        r@ == model.spec_name() + "/"@ + serial@,
{
    let mut r = String::from_str(model.name());
    r.append("/");
    r.append(serial);
    r
}

pub open spec fn opt_str_view(o: Option<String>) -> Option<Seq<char>> {
    match o {
        Some(s) => Some(s@),
        None => None,
    }
}

/// The commands and command-file path of a described device. A command file
/// is read when its path is given and the file exists; commands given
/// inline take the place of the file's, but a file that exists and cannot
/// be read is an error first.
pub open spec fn spec_resolve_config(
    inline: Option<Seq<char>>,
    path: Option<Seq<char>>,
    file: Option<Result<Seq<char>, Seq<char>>>,
) -> Result<(Seq<char>, Seq<char>), Seq<char>> {
    let config_path = match path {
        Some(p) => p,
        None => Seq::empty(),
    };
    let from_file = match path {
        Some(_) => file,
        None => None,
    };
    match from_file {
        Some(Err(e)) => Err(e),
        _ => match inline {
            Some(c) => Ok((c, config_path)),
            None => match from_file {
                Some(Ok(c)) => Ok((c, config_path)),
                _ => Err("Missing 'config' or 'config_path'"@),
            },
        },
    }
}

/// Settles the commands of a device from what its description gives:
/// `inline` commands, a command-file `path`, and `file`, the outcome of
/// reading that file where it exists (absent where it does not). Gives the
/// commands and the path (empty when none is given), or the error text.
pub fn resolve_config(inline: Option<String>, path: Option<String>, file: Option<Result<String, String>>) -> (r:
    Result<(String, String), String>)
    ensures
        match r {
            Ok((c, p)) => spec_resolve_config(
                opt_str_view(inline),
                opt_str_view(path),
                match file {
                    Some(Ok(s)) => Some(Ok(s@)),
                    Some(Err(e)) => Some(Err(e@)),
                    None => None,
                },
            ) == Ok::<(Seq<char>, Seq<char>), Seq<char>>((c@, p@)),
            Err(e) => spec_resolve_config(
                opt_str_view(inline),
                opt_str_view(path),
                match file {
                    Some(Ok(s)) => Some(Ok(s@)),
                    Some(Err(e)) => Some(Err(e@)),
                    None => None,
                },
            ) == Err::<(Seq<char>, Seq<char>), Seq<char>>(e@),
        },
{
    let mut config_path = String::new();
    let mut config: Option<String> = None;
    if let Some(p) = path {
        config_path = p;
        if let Some(read) = file {
            match read {
                Ok(contents) => {
                    config = Some(contents);
                },
                Err(e) => {
                    return Err(e);
                },
            }
        }
    }
    if let Some(c) = inline {
        config = Some(c);
    }
    match config {
        Some(c) => Ok((c, config_path)),
        None => Err(String::from_str("Missing 'config' or 'config_path'")),
    }
}

} // verus!
