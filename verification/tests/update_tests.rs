use mmwave::config_update::{first_command_change, playback_settings, recording_files};
use mmwave::discovery::announced_service;
use mmwave::ids::Id;

fn s(t: &str) -> String {
    t.to_string()
}

#[test]
fn awr_restarts_at_first_command_change() {
    let me = Id::Device(1, 2);
    let entries = vec![
        (Id::Device(1, 3), Some(s("other"))),
        (me, None),
        (me, Some(s("same"))),
        (me, Some(s("new"))),
        (me, Some(s("newer"))),
    ];
    assert_eq!(first_command_change(&s("same"), me, &entries), Some(3));
    assert_eq!(first_command_change(&s("same"), me, &entries[..3].to_vec()), None);
    assert_eq!(first_command_change(&s("x"), Id::Device(9, 9), &entries), None);
}

#[test]
fn recorder_reopens_on_each_new_file() {
    let me = Id::Device(0, 1);
    let entries = vec![
        (me, Some(s("a.json"))),
        (me, Some(s("b.json"))),
        (Id::Device(0, 2), Some(s("c.json"))),
        (me, Some(s("b.json"))),
        (me, None),
        (me, Some(s("a.json"))),
    ];
    assert_eq!(recording_files(&s("a.json"), me, &entries), vec![s("b.json"), s("a.json")]);
    assert!(recording_files(&s("a.json"), me, &Vec::new()).is_empty());
}

#[test]
fn playback_takes_the_last_entry() {
    let me = Id::Device(4, 4);
    let entries = vec![
        (me, Some((s("one.json"), s("mmwave")))),
        (me, None),
        (me, Some((s("two.json"), s("")))),
        (Id::Device(4, 5), Some((s("three.json"), s("zed")))),
    ];
    assert_eq!(playback_settings(&s("old.json"), &s("f"), me, &entries), (s("two.json"), s("")));
    assert_eq!(playback_settings(&s("old.json"), &s("f"), me, &Vec::new()), (s("old.json"), s("f")));
}

#[test]
fn announced_service_is_the_first_service_record() {
    let records = vec![None, Some((s("mmwaveserver._http._tcp.local."), 3000)), Some((s("x"), 1))];
    assert_eq!(announced_service(&records), (s("mmwaveserver._http._tcp.local."), 3000));
    assert_eq!(announced_service(&vec![None, None]), (s("Unknown"), 0));
}
