use mmwave::playback::{label_filter_accepts, playback_step, playback_title, sanitize_nulls, PlaybackStep};

fn labels(ls: &[&str]) -> Vec<String> {
    ls.iter().map(|s| s.to_string()).collect()
}

#[test]
fn sanitize_replaces_every_null() {
    let text = br#"[{"time":1,"points":[[null,1.5,null,null]]},{"x":nullnull}]"#;
    let out = sanitize_nulls(text);
    assert_eq!(
        String::from_utf8(out.clone()).unwrap(),
        r#"[{"time":1,"points":[[0.0,1.5,0.0,0.0]]},{"x":0.00.0}]"#
    );
    let s = String::from_utf8_lossy(text).replace("null", "0.0");
    assert_eq!(out, s.into_bytes());
    assert_eq!(sanitize_nulls(b"nnullull"), b"n0.0ull".to_vec());
    assert_eq!(sanitize_nulls(b"nul"), b"nul".to_vec());
    assert_eq!(sanitize_nulls(b""), Vec::<u8>::new());
    let parsed: serde_json::Value =
        serde_json::from_slice(&sanitize_nulls(b"[null, 2.5]")).unwrap();
    assert_eq!(parsed[0].as_f64(), Some(0.0));
}

#[test]
fn label_filter_cases() {
    assert!(label_filter_accepts(&labels(&["zedbody:1", "mmwave"]), "body"));
    assert!(label_filter_accepts(&labels(&["zedbody:1"]), "zedbody:1"));
    assert!(!label_filter_accepts(&labels(&["zedbody:1"]), "mmwave"));
    assert!(!label_filter_accepts(&labels(&[]), "mmwave"));
    assert!(label_filter_accepts(&labels(&[]), ""));
    assert!(!label_filter_accepts(&labels(&["x"]), ""));
    assert!(label_filter_accepts(&labels(&["ünï"]), "nï"));
    assert!(!label_filter_accepts(&labels(&["ab"]), "abc"));
}

#[test]
fn playback_steps() {
    assert_eq!(playback_step(10, 5), PlaybackStep::Skip);
    assert_eq!(playback_step(5, 5), PlaybackStep::PublishAfter(0));
    assert_eq!(playback_step(1_000_000, 3_999_999), PlaybackStep::PublishAfter(2));
    assert_eq!(playback_step(i64::MIN, i64::MAX), PlaybackStep::PublishAfter(18_446_744_073_709));
}

#[test]
fn playback_titles() {
    assert_eq!(playback_title("/data/run.json", "mmwave"), "/data/run.json (mmwave)");
    assert_eq!(playback_title("", ""), " ()");
}
