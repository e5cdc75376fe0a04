use keyframes_aux2::keyframe::{EasingKeyframeInfo, Keyframe, Keyframes};

type Track = Keyframes<f64, u32>;

fn info(name: &str) -> EasingKeyframeInfo<f64, u32> {
    EasingKeyframeInfo {
        easing: name.to_string(),
        acceleration: false,
        deceleration: false,
        params: vec![],
        timecontrol: 0,
    }
}

fn kinds(track: &Track) -> String {
    track
        .keyframes
        .iter()
        .map(|k| match k {
            Keyframe::Easing(_) => 'E',
            Keyframe::Ignored => 'I',
            Keyframe::Midpoint => 'M',
        })
        .collect()
}

fn track(pattern: &str) -> Track {
    Keyframes {
        keyframes: pattern
            .chars()
            .map(|c| match c {
                'E' => Keyframe::Easing(info("e")),
                'I' => Keyframe::Ignored,
                _ => Keyframe::Midpoint,
            })
            .collect(),
    }
}

#[test]
fn new_track_starts_with_linear_easing() {
    let t: Track = Keyframes::new(4, 7);
    assert_eq!(kinds(&t), "EMMM");
    match &t.keyframes[0] {
        Keyframe::Easing(i) => {
            assert_eq!(i.easing, "直線移動");
            assert!(!i.acceleration && !i.deceleration);
            assert!(i.params.is_empty());
            assert_eq!(i.timecontrol, 7);
        }
        _ => panic!("first boundary is not an easing"),
    }
}

#[test]
fn resize_extends_with_midpoints_and_truncates() {
    let mut t = track("EIE");
    t.resize(5);
    assert_eq!(kinds(&t), "EIEMM");
    t.resize(2);
    assert_eq!(kinds(&t), "EI");
}

#[test]
fn easing_index_finds_governing_boundary() {
    let t = track("EMIEMM");
    assert_eq!(t.easing_index_at(0), 0);
    assert_eq!(t.easing_index_at(2), 0);
    assert_eq!(t.easing_index_at(3), 3);
    assert_eq!(t.easing_index_at(5), 3);
    assert_eq!(t.easing_index_at(100), 3);
}

#[test]
fn section_indices_span_midpoints_to_next_easing() {
    let t = track("EMIMEMM");
    assert_eq!(t.section_indices(0), vec![0, 1, 3, 4]);
    assert_eq!(t.section_indices(2), vec![0, 1, 3, 4]);
    assert_eq!(t.section_indices(4), vec![4, 5, 6]);
    assert_eq!(t.section_indices(6), vec![4, 5, 6]);
}

#[test]
fn section_indices_end_at_last_boundary() {
    let t = track("EII");
    assert_eq!(t.section_indices(0), vec![0, 2]);
    let t = track("E");
    assert_eq!(t.section_indices(0), vec![0]);
}

#[test]
fn ignore_following_midpoints_stops_at_other_boundary() {
    let mut t = track("EMMEMM");
    t.ignore_following_midpoints(0);
    assert_eq!(kinds(&t), "EIIEMM");
    let mut t = track("EMMEMM");
    t.ignore_following_midpoints(3);
    assert_eq!(kinds(&t), "EMMEII");
}

#[test]
fn with_easing_sets_boundary_and_ignores_midpoints() {
    let t = track("EMMMEM").with_easing(1, info("ease"), true);
    assert_eq!(kinds(&t), "EEIIEM");
    match &t.keyframes[1] {
        Keyframe::Easing(i) => assert_eq!(i.easing, "ease"),
        _ => panic!("not an easing"),
    }
    let t = track("EMMMEM").with_easing(1, info("ease"), false);
    assert_eq!(kinds(&t), "EEMMEM");
}

#[test]
fn midpoint_and_ignored_actions() {
    let mut t = track("EMM");
    t.set_ignored(1);
    assert_eq!(kinds(&t), "EIM");
    t.set_midpoint(1);
    assert_eq!(kinds(&t), "EMM");
}

#[test]
fn set_param_fills_defaults() {
    let mut t = track("EM");
    t.set_param(0, 3, 9.5, &vec![1.0, 2.0], 0.0);
    match &t.keyframes[0] {
        Keyframe::Easing(i) => assert_eq!(i.params, vec![1.0, 2.0, 0.0, 9.5]),
        _ => panic!("not an easing"),
    }
    t.set_param(0, 1, 4.0, &vec![1.0, 2.0], 0.0);
    match &t.keyframes[0] {
        Keyframe::Easing(i) => assert_eq!(i.params, vec![1.0, 4.0, 0.0, 9.5]),
        _ => panic!("not an easing"),
    }
}

#[test]
fn set_speed_changes_flags_only() {
    let mut t = track("EM");
    t.set_speed(0, true, false);
    match &t.keyframes[0] {
        Keyframe::Easing(i) => {
            assert!(i.acceleration);
            assert!(!i.deceleration);
            assert_eq!(i.easing, "e");
        }
        _ => panic!("not an easing"),
    }
}

#[test]
fn section_labels() {
    let t = track("EMI");
    assert_eq!(t.keyframes[0].section_label(), Some("e"));
    assert_eq!(t.keyframes[1].section_label(), Some("〃"));
    assert_eq!(t.keyframes[2].section_label(), None);
}
