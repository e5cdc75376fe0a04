use keyframes_aux2::easing::Easing;
use keyframes_aux2::keyframe::EasingKeyframeInfo;
use std::path::PathBuf;

fn params(e: &Easing) -> Vec<(String, String)> {
    e.params.iter().map(|(k, v)| (k.clone(), v.clone())).collect()
}

#[test]
fn from_script_reads_directives() {
    let script =
        "--speed:1,0\n--param:強さ,1.5\n  --timecontrol  \n--param:2\n--twopoint\n--label:  Basic  \nbody\n";
    let e = Easing::from_script(None, "name", script);
    assert_eq!(e.name, "name");
    assert_eq!(e.script, script);
    assert_eq!(e.script_bytes, script.as_bytes().to_vec());
    assert!(e.has_speed);
    assert!(e.default_acceleration);
    assert!(!e.default_deceleration);
    assert!(e.has_timecontrol);
    assert!(e.ignore_midpoints);
    assert_eq!(e.label.as_deref(), Some("Basic"));
    assert_eq!(
        params(&e),
        vec![
            ("強さ".to_string(), "1.5".to_string()),
            ("設定値".to_string(), "2".to_string())
        ]
    );
}

#[test]
fn from_script_without_directives() {
    let e = Easing::from_script(Some(PathBuf::from("a.tra2")), "plain", "return 1\n");
    assert!(!e.has_speed && !e.has_timecontrol && !e.ignore_midpoints);
    assert_eq!(e.label, None);
    assert!(e.params.is_empty());
    assert_eq!(e.path, Some(PathBuf::from("a.tra2")));
}

#[test]
fn from_script_number_forms() {
    let e = Easing::from_script(None, "n", "--param:a,1.x\n--param:b,.5\n--param:c,x\n--param:a,7\n");
    assert_eq!(
        params(&e),
        vec![
            ("a".to_string(), "7".to_string()),
            ("b".to_string(), ".5".to_string())
        ]
    );
}

#[test]
fn from_script_named_and_plain_on_one_line() {
    // `--param:1,2` is both a named parameter "1" and an unnamed parameter.
    let e = Easing::from_script(None, "n", "--param:1,2");
    assert_eq!(
        params(&e),
        vec![
            ("1".to_string(), "2".to_string()),
            ("設定値".to_string(), "1".to_string())
        ]
    );
}

#[test]
fn from_script_label_must_start_line() {
    let e = Easing::from_script(None, "n", "  --label:x\n");
    assert_eq!(e.label, None);
    let e = Easing::from_script(None, "n", "--twopoint\r\n");
    assert!(e.ignore_midpoints);
    let e = Easing::from_script(None, "n", "x --twopoint\n--speed:2,0\n");
    assert!(!e.ignore_midpoints);
    assert!(!e.has_speed);
}

#[test]
fn from_multi_script_splits_at_names() {
    let text = "@first\n--twopoint\nbody\n@ second \nline\r\n@\nignored\n@third";
    let path = Some(PathBuf::from("dir/@set.tra2"));
    let easings = Easing::from_multi_script(path.clone(), text);
    assert_eq!(easings.len(), 3);
    assert_eq!(easings[0].name, "first");
    assert_eq!(easings[0].script, "--twopoint\nbody\n");
    assert!(easings[0].ignore_midpoints);
    assert_eq!(easings[1].name, "second");
    assert_eq!(easings[1].script, "line\n");
    assert_eq!(easings[1].script_bytes, b"line\n".to_vec());
    assert_eq!(easings[2].name, "third");
    assert_eq!(easings[2].script, "");
    for e in &easings {
        assert_eq!(e.path, path);
    }
}

#[test]
fn from_multi_script_keeps_given_bytes() {
    let easings = Easing::from_multi_script_with_bytes(None, "@x\nab\n", b"@x\nAB\n");
    assert_eq!(easings.len(), 1);
    assert_eq!(easings[0].script, "ab\n");
    assert_eq!(easings[0].script_bytes, b"AB\n".to_vec());
}

#[test]
fn from_multi_script_ignores_text_before_first_name() {
    let easings = Easing::from_multi_script(None, "preamble\n@only\nx");
    assert_eq!(easings.len(), 1);
    assert_eq!(easings[0].name, "only");
    assert_eq!(easings[0].script, "x\n");
    assert!(Easing::from_multi_script(None, "").is_empty());
}

#[test]
fn keyframe_for_easing_takes_defaults() {
    let e = Easing::from_script(None, "ease", "--speed:0,1\n");
    let info: EasingKeyframeInfo<f64, u8> = EasingKeyframeInfo::for_easing(&e, vec![1.0], 3);
    assert_eq!(info.easing, "ease");
    assert!(!info.acceleration);
    assert!(info.deceleration);
    assert_eq!(info.params, vec![1.0]);
    assert_eq!(info.timecontrol, 3);
}
