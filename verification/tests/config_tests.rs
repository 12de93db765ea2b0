use mmwave::discovery::is_server_responder;
use mmwave::awr::{awr_title, resolve_config};
use mmwave::devices::EmptyDeviceDescriptor;
use mmwave::ports::Model;
use mmwave::radar::command_lines;
use mmwave::recording::{JsonArrayFramer, RecordingDescriptor};

#[test]
fn command_lines_split_like_str_lines() {
    let text = "sensorStop\r\nflushCfg\n\n% comment\r\nsensorStart";
    assert_eq!(
        command_lines(text),
        vec!["sensorStop", "flushCfg", "", "% comment", "sensorStart"]
    );
    assert_eq!(command_lines("foo\nbar\n\r\nbaz\r"), vec!["foo", "bar", "", "baz\r"]);
    assert_eq!(command_lines("a\n"), vec!["a"]);
    assert_eq!(command_lines(""), Vec::<String>::new());
    assert_eq!(command_lines("\n"), vec![""]);
    for text in ["x\ny\r\n", "\r\n\r\n", "only", "é\nü\r\n"] {
        let expected: Vec<String> = text.lines().map(|l| l.to_string()).collect();
        assert_eq!(command_lines(text), expected);
    }
}

#[test]
fn awr_title_joins_model_and_serial() {
    assert_eq!(awr_title(Model::AWR1843Boost, "ABC123"), "AWR1843Boost/ABC123");
    assert_eq!(awr_title(Model::AWR1843AOP, ""), "AWR1843AOP/");
}

#[test]
fn resolve_config_prefers_inline_commands() {
    let r = resolve_config(
        Some("inline".to_string()),
        Some("/cfg".to_string()),
        Some(Ok("from file".to_string())),
    );
    assert_eq!(r, Ok(("inline".to_string(), "/cfg".to_string())));
}

#[test]
fn resolve_config_reads_the_file() {
    let r = resolve_config(None, Some("/cfg".to_string()), Some(Ok("from file".to_string())));
    assert_eq!(r, Ok(("from file".to_string(), "/cfg".to_string())));
    let r = resolve_config(Some("inline".to_string()), None, None);
    assert_eq!(r, Ok(("inline".to_string(), String::new())));
    let r = resolve_config(Some("inline".to_string()), Some("/missing".to_string()), None);
    assert_eq!(r, Ok(("inline".to_string(), "/missing".to_string())));
}

#[test]
fn resolve_config_errors() {
    let r = resolve_config(
        Some("inline".to_string()),
        Some("/cfg".to_string()),
        Some(Err("permission denied".to_string())),
    );
    assert_eq!(r, Err("permission denied".to_string()));
    let r = resolve_config(None, Some("/missing".to_string()), None);
    assert_eq!(r, Err("Missing 'config' or 'config_path'".to_string()));
    let r = resolve_config(None, None, Some(Ok("ignored".to_string())));
    assert_eq!(r, Err("Missing 'config' or 'config_path'".to_string()));
}

#[test]
fn device_titles() {
    assert_eq!(EmptyDeviceDescriptor.title(), "Untitled Device");
    let rec = RecordingDescriptor { file_path: "/tmp/out.json".to_string() };
    assert_eq!(rec.title(), "/tmp/out.json");
}

#[test]
fn json_array_framer_writes_a_json_array() {
    let (mut framer, open) = JsonArrayFramer::new();
    let mut out = open.to_string();
    out.push_str(&framer.element("{\"a\":1}"));
    out.push_str(&framer.element("2"));
    out.push_str(&framer.element("[3]"));
    out.push_str(framer.close());
    assert_eq!(out, "[{\"a\":1},\n2,\n[3]]");
    let parsed: serde_json::Value = serde_json::from_str(&out).unwrap();
    assert_eq!(parsed.as_array().unwrap().len(), 3);

    let (framer, open) = JsonArrayFramer::new();
    assert_eq!(format!("{}{}", open, framer.close()), "[]");
}

#[test]
fn server_responders() {
    assert!(is_server_responder("mmwaveserver._http._tcp.local.", true));
    assert!(!is_server_responder("mmwaveserver._http._tcp.local.", false));
    assert!(!is_server_responder("printer._http._tcp.local.", true));
    assert!(!is_server_responder("Unknown", true));
    assert!(!is_server_responder("mmwaveserve", true));
}
