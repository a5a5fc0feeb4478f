use ebpf_monitor::config::{Config, PrintConfig};
use ebpf_monitor::settings::{pid_list, pid_text, setting_value, StoredSettings};

fn none() -> StoredSettings {
    StoredSettings { basenames: None, groups: None, uid: None, print: None }
}

#[test]
fn nothing_stored_gives_factory_default() {
    let c = Config::from_settings(&none(), vec![]);
    let w = c.watch.unwrap();
    assert!(w.basenames.is_empty());
    assert_eq!(w.groups, vec!["create", "create_any", "rename_", "delete"]);
    assert!(c.whitelist.uid.is_empty());
    assert!(c.print.is_none());
}

#[test]
fn stored_values_replace_defaults() {
    let s = StoredSettings {
        basenames: Some("[\"a.jpg\",\"b.db\"]".into()),
        groups: Some("[\"delete\"]".into()),
        uid: Some("[10001, 10002]".into()),
        print: Some("[\"create\"]".into()),
    };
    let c = Config::from_settings(&s, vec![42]);
    let w = c.watch.as_ref().unwrap();
    assert_eq!(w.basenames, vec!["a.jpg", "b.db"]);
    assert_eq!(w.groups, vec!["delete"]);
    assert_eq!(c.whitelist.uid, vec![10001, 10002]);
    assert_eq!(c.whitelist.pid, vec![42]);
    assert_eq!(c.print.as_ref().unwrap().groups, vec!["create"]);
}

#[test]
fn unreadable_or_empty_values() {
    let s = StoredSettings {
        basenames: Some("not json".into()),
        groups: Some("{}".into()),
        uid: Some("[-1]".into()),
        print: Some("[]".into()),
    };
    let c = Config::from_settings(&s, vec![]);
    let w = c.watch.as_ref().unwrap();
    assert!(w.basenames.is_empty());
    assert_eq!(w.groups.len(), 4);
    assert!(c.whitelist.uid.is_empty());
    assert!(c.print.is_none());
}

#[test]
fn settings_written_in_order() {
    let mut c = Config::factory_default();
    c.whitelist.uid = vec![1, 2];
    c.print = Some(PrintConfig { groups: vec!["create".into()] });
    let kv = c.settings();
    let keys: Vec<&str> = kv.iter().map(|(k, _)| k.as_str()).collect();
    assert_eq!(keys, vec!["watch.basenames", "watch.groups", "whitelist.uid", "print.groups"]);
    assert_eq!(kv[0].1, "[]");
    assert_eq!(kv[1].1, "[\"create\",\"create_any\",\"rename_\",\"delete\"]");
    assert_eq!(kv[2].1, "[1,2]");
    assert_eq!(kv[3].1, "[\"create\"]");
    c.watch = None;
    c.print = None;
    let kv = c.settings();
    assert_eq!(kv[0].1, "[]");
    assert_eq!(kv[1].1, "[\"create\",\"create_any\",\"rename_\",\"delete\"]");
    assert_eq!(kv[3].1, "[]");
}

#[test]
fn stored_text_is_trimmed() {
    assert_eq!(setting_value(b"  [1]\n"), Some("[1]".to_string()));
    assert_eq!(setting_value(b" \n"), None);
    assert_eq!(setting_value(b""), None);
}

#[test]
fn settings_read_back() {
    let mut c = Config::factory_default();
    c.watch.as_mut().unwrap().basenames = vec!["x.png".into()];
    c.whitelist.uid = vec![7];
    let kv = c.settings();
    let s = StoredSettings {
        basenames: Some(kv[0].1.clone()),
        groups: Some(kv[1].1.clone()),
        uid: Some(kv[2].1.clone()),
        print: Some(kv[3].1.clone()),
    };
    let back = Config::from_settings(&s, c.whitelist.pid.clone());
    assert_eq!(back.watch.as_ref().unwrap().basenames, vec!["x.png"]);
    assert_eq!(back.watch.as_ref().unwrap().groups, c.watch.as_ref().unwrap().groups);
    assert_eq!(back.whitelist.uid, vec![7]);
    assert!(back.print.is_none());
}

#[test]
fn settings_read_back_escaped_names_and_print() {
    let mut c = Config::factory_default();
    c.watch.as_mut().unwrap().basenames = vec!["a\"b".into(), "名前.jpg".into(), "back\\slash".into()];
    c.whitelist.uid = vec![0, 10123, u32::MAX];
    c.print = Some(ebpf_monitor::config::PrintConfig { groups: vec!["open_".into()] });
    let kv = c.settings();
    let s = StoredSettings {
        basenames: Some(kv[0].1.clone()),
        groups: Some(kv[1].1.clone()),
        uid: Some(kv[2].1.clone()),
        print: Some(kv[3].1.clone()),
    };
    let back = Config::from_settings(&s, vec![5]);
    assert_eq!(back.watch.as_ref().unwrap().basenames, c.watch.as_ref().unwrap().basenames);
    assert_eq!(back.whitelist.uid, c.whitelist.uid);
    assert_eq!(back.whitelist.pid, vec![5]);
    assert_eq!(back.print.unwrap().groups, vec!["open_".to_string()]);
}

#[test]
fn pid_list_round_trip() {
    assert_eq!(pid_list("[1, 2, 3]"), vec![1, 2, 3]);
    assert_eq!(pid_list("not a list"), Vec::<u32>::new());
    assert_eq!(pid_text(&vec![7, 8]), "[7,8]");
    assert_eq!(pid_list(&pid_text(&vec![u32::MAX, 0])), vec![u32::MAX, 0]);
}
