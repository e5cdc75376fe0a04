use keyframes_aux2::bindings::{BindingAction, BindingReconciler, StoredAction};
use keyframes_aux2::effect::EffectType::{
    AudioEffect, AudioFilter, AudioInput, Control, VideoEffect, VideoFilter, VideoInput,
};
use keyframes_aux2::effect::{color_keys, determine_effect_type, HostEffectKind};
use keyframes_aux2::keyframe::{TimeControlDragModifiers, TimeControlMode};
use keyframes_aux2::module::KeyframesMod2;
use keyframes_aux2::object::{effect_indices, fallback_object_name, parse_frames};
use keyframes_aux2::track_params::{KeyframeTrackParams, TrackIdCounter};
use keyframes_aux2::usage::UsedKeyframes;

#[test]
fn debug_mode_toggles_from_fifth_click() {
    let mut m = KeyframesMod2::new();
    assert!(!m.debug_mode());
    for clicks in 1..5 {
        m.register_click(clicks);
        assert!(!m.debug_mode());
    }
    m.register_click(5);
    assert!(!m.debug_mode());
    m.register_click(6);
    assert!(m.debug_mode());
    m.register_click(7);
    assert!(!m.debug_mode());
}

#[test]
fn effect_types_follow_host_kind() {
    assert_eq!(determine_effect_type(HostEffectKind::Filter, false, Some(Control)), VideoFilter);
    assert_eq!(determine_effect_type(HostEffectKind::Filter, true, Some(Control)), AudioFilter);
    assert_eq!(determine_effect_type(HostEffectKind::Filter, true, Some(VideoInput)), AudioEffect);
    assert_eq!(determine_effect_type(HostEffectKind::Filter, false, None), VideoEffect);
    assert_eq!(determine_effect_type(HostEffectKind::Input, true, None), AudioInput);
    assert_eq!(determine_effect_type(HostEffectKind::Input, false, None), VideoInput);
    assert_eq!(determine_effect_type(HostEffectKind::SceneChange, true, None), Control);
    assert_eq!(determine_effect_type(HostEffectKind::Control, false, None), Control);
    assert_eq!(determine_effect_type(HostEffectKind::Output, false, Some(AudioInput)), AudioInput);
    assert_eq!(determine_effect_type(HostEffectKind::Output, false, None), Control);
    assert_eq!(color_keys(&VideoEffect), ("ObjectVideoEffect", "ObjectVideoEffectSelect"));
    assert_eq!(color_keys(&AudioInput), ("ObjectAudio", "ObjectAudioSelect"));
}

#[test]
fn plain_types_compare() {
    assert_ne!(TimeControlMode::Bezier, TimeControlMode::Bounce);
    let m = TimeControlDragModifiers { shift: true, alt: false };
    assert_eq!(m, TimeControlDragModifiers { shift: true, alt: false });
}

#[test]
fn used_keyframes_keep_referred_tracks() {
    let mut used = UsedKeyframes::new();
    used.record_alias("0,1,keyframes.aux2,0|2,5");
    used.record_alias("0,1,keyframes.aux2,0|2,5");
    used.record_alias("not a reference");
    assert_eq!(used.used_keyframes.len(), 1);
    let p = |b, k| KeyframeTrackParams { bank_id: b, keyframes_id: k };
    assert!(used.keeps(&p(2, 5), 9));
    assert!(!used.keeps(&p(2, 6), 9));
    assert!(used.keeps(&p(2, 6), 2));
    assert!(used.keeps(&p(3, 1), 9));
}

#[test]
fn bindings_move_duplicates_and_resized_tracks() {
    let p = |b, k| KeyframeTrackParams { bank_id: b, keyframes_id: k };
    let mut counter = TrackIdCounter { current_bank: 4, next_keyframes_id: 10 };
    let mut r = BindingReconciler::new();
    // A binding whose migration was already resolved is left alone.
    assert_eq!(r.check_binding(p(1, 1), 0, true, &mut counter), BindingAction::Skip);
    // A track with no identifiers gets new ones.
    assert_eq!(
        r.check_binding(p(0, 0), 0, false, &mut counter),
        BindingAction::AssignNew { new_params: p(4, 10) }
    );
    // The first effect to use a track checks the stored track.
    assert_eq!(r.check_binding(p(1, 1), 0, false, &mut counter), BindingAction::CheckStored);
    assert_eq!(r.check_stored(p(1, 1), 0, None, 3, &mut counter), StoredAction::Register);
    // Another effect using the same track is moved off it, twice to the same place.
    assert_eq!(
        r.check_binding(p(1, 1), 1, false, &mut counter),
        BindingAction::SplitDuplicate { new_params: p(4, 11) }
    );
    assert_eq!(
        r.check_binding(p(1, 1), 2, false, &mut counter),
        BindingAction::SplitDuplicate { new_params: p(4, 11) }
    );
    // The same effect again checks the stored track.
    assert_eq!(r.check_binding(p(1, 1), 0, false, &mut counter), BindingAction::CheckStored);
    assert_eq!(r.check_stored(p(1, 1), 0, Some(3), 3, &mut counter), StoredAction::Keep);
    // A stored track of the wrong length moves.
    assert_eq!(r.check_binding(p(1, 2), 5, false, &mut counter), BindingAction::CheckStored);
    assert_eq!(
        r.check_stored(p(1, 2), 5, Some(2), 4, &mut counter),
        StoredAction::MigrateResized { new_params: p(4, 12) }
    );
    assert_eq!(counter.next_keyframes_id, 13);
}

#[test]
fn frames_parse_numeric_pieces() {
    assert_eq!(parse_frames("0,10,+20,x,,30"), vec![0, 10, 20, 30]);
    assert_eq!(parse_frames(""), Vec::<usize>::new());
    assert_eq!(parse_frames("-1,5"), vec![5]);
}

#[test]
fn effect_indices_count_same_names() {
    let names: Vec<String> = ["a", "b", "a", "a", "b"].iter().map(|s| s.to_string()).collect();
    assert_eq!(effect_indices(&names), vec![0, 0, 1, 2, 1]);
}

#[test]
fn fallback_name_prefers_non_control_effect() {
    let e = |n: &str, t| (n.to_string(), t);
    assert_eq!(
        fallback_object_name(&vec![e("group", Control), e("text", VideoInput)]),
        "text"
    );
    assert_eq!(fallback_object_name(&vec![e("group", Control)]), "group");
    assert_eq!(fallback_object_name(&vec![]), "Unknown Object");
}
