use keyframes_aux2::catalog::{
    easings_from_file, order_key, script_encoding, sort_by_order, without_reserved,
    ScriptEncoding, ScriptSource,
};
use keyframes_aux2::easing::Easing;
use std::path::PathBuf;

#[test]
fn script_encoding_by_extension() {
    assert_eq!(script_encoding("ease.tra2"), Some(ScriptEncoding::Utf8));
    assert_eq!(script_encoding("ease.tra"), Some(ScriptEncoding::ShiftJis));
    assert_eq!(script_encoding("@set.v1.tra2"), Some(ScriptEncoding::Utf8));
    assert_eq!(script_encoding("ease.TRA"), None);
    assert_eq!(script_encoding("ease.tra2.bak"), None);
    assert_eq!(script_encoding("ease"), None);
    assert_eq!(script_encoding(".tra"), None);
    assert_eq!(script_encoding(""), None);
    assert_eq!(script_encoding(".."), None);
    assert_eq!(script_encoding("a..tra"), Some(ScriptEncoding::ShiftJis));
}

#[test]
fn single_script_file_is_named_by_its_stem() {
    let path = PathBuf::from("Script/Group/bounce.v2.tra2");
    let r = easings_from_file(
        path.clone(),
        "bounce.v2.tra2",
        Some("Group".to_string()),
        ScriptSource::Text("--speed:1,1\nreturn t\n".to_string()),
    );
    assert_eq!(r.len(), 1);
    assert_eq!(r[0].name, "bounce.v2");
    assert_eq!(r[0].script, "--speed:1,1\nreturn t\n");
    assert_eq!(r[0].path, Some(path));
    assert!(r[0].has_speed);
    assert_eq!(r[0].label.as_deref(), Some("Group"));
}

#[test]
fn declared_label_wins_over_folder() {
    let r = easings_from_file(
        PathBuf::from("x.tra2"),
        "x.tra2",
        Some("Folder".to_string()),
        ScriptSource::Text("--label:Own\n".to_string()),
    );
    assert_eq!(r[0].label.as_deref(), Some("Own"));
    let r = easings_from_file(
        PathBuf::from("x.tra2"),
        "x.tra2",
        None,
        ScriptSource::Text("return 0\n".to_string()),
    );
    assert_eq!(r[0].label, None);
}

#[test]
fn multi_script_file_appends_its_stem() {
    let text = "@In\n--label:Ins\nreturn 1\n@Out\nreturn 2\n";
    let r = easings_from_file(
        PathBuf::from("@quad.tra2"),
        "@quad.tra2",
        Some("Folder".to_string()),
        ScriptSource::Text(text.to_string()),
    );
    assert_eq!(r.len(), 2);
    assert_eq!(r[0].name, "In@quad");
    assert_eq!(r[1].name, "Out@quad");
    assert_eq!(r[0].label.as_deref(), Some("Ins"));
    assert_eq!(r[1].label.as_deref(), Some("Folder"));
    assert_eq!(r[0].path, Some(PathBuf::from("@quad.tra2")));
}

#[test]
fn shift_jis_file_is_decoded() {
    // "--label:あ\n" in Shift_JIS: あ is 0x82 0xA0, which is not UTF-8.
    let mut bytes = b"--label:".to_vec();
    bytes.extend_from_slice(&[0x82, 0xA0]);
    bytes.push(b'\n');
    let r = easings_from_file(
        PathBuf::from("old.tra"),
        "old.tra",
        None,
        ScriptSource::ShiftJis(bytes),
    );
    assert_eq!(r.len(), 1);
    assert_eq!(r[0].name, "old");
    assert_eq!(r[0].script, "--label:あ\n");
    assert_eq!(r[0].script_bytes, "--label:あ\n".as_bytes().to_vec());
    assert_eq!(r[0].label.as_deref(), Some("あ"));
}

#[test]
fn reserved_name_is_dropped() {
    let easings = vec![
        Easing::from_script(None, "a", ""),
        Easing::from_script(None, "keyframes.aux2", ""),
        Easing::from_script(None, "keyframes.aux", ""),
        Easing::from_script(None, "b", ""),
    ];
    let names: Vec<String> = without_reserved(easings)
        .into_iter()
        .map(|e| e.name)
        .collect();
    assert_eq!(names, vec!["a", "keyframes.aux", "b"]);
}

#[test]
fn order_key_reads_i32() {
    assert_eq!(order_key(Some("12")), 12);
    assert_eq!(order_key(Some("-3")), -3);
    assert_eq!(order_key(Some("+7")), 7);
    assert_eq!(order_key(Some("2147483647")), 2147483647);
    assert_eq!(order_key(Some("-2147483648")), -2147483648);
    assert_eq!(order_key(Some("2147483648")), i32::MAX);
    assert_eq!(order_key(Some(" 1")), i32::MAX);
    assert_eq!(order_key(Some("1.5")), i32::MAX);
    assert_eq!(order_key(Some("-")), i32::MAX);
    assert_eq!(order_key(Some("")), i32::MAX);
    assert_eq!(order_key(None), i32::MAX);
}

#[test]
fn sort_by_order_is_stable() {
    let easings: Vec<Easing> = ["a", "b", "c", "d", "e"]
        .iter()
        .map(|n| Easing::from_script(None, n, ""))
        .collect();
    let keys = vec![i32::MAX, 2, i32::MAX, -1, 2];
    let names: Vec<String> = sort_by_order(easings, &keys)
        .into_iter()
        .map(|e| e.name)
        .collect();
    assert_eq!(names, vec!["d", "b", "e", "a", "c"]);
}
