use keyframes_aux2::track_params::{KeyframeTrackParams, TrackAliasError, TrackIdCounter};

fn params(bank_id: usize, keyframes_id: usize) -> KeyframeTrackParams {
    KeyframeTrackParams { bank_id, keyframes_id }
}

#[test]
fn parse_reads_reference_after_values() {
    assert_eq!(
        KeyframeTrackParams::parse("0.00,100.00,keyframes.aux2,0|3,7"),
        Some(params(3, 7))
    );
}

#[test]
fn parse_reads_reference_followed_by_bar() {
    assert_eq!(
        KeyframeTrackParams::parse("x,keyframes.aux2,12|4,5|extra"),
        Some(params(4, 5))
    );
}

#[test]
fn parse_needs_leading_comma() {
    assert_eq!(KeyframeTrackParams::parse("keyframes.aux2,0|3,7"), None);
}

#[test]
fn parse_needs_end_or_bar_after_id() {
    assert_eq!(KeyframeTrackParams::parse(",keyframes.aux2,0|3,7x"), None);
}

#[test]
fn parse_rejects_overflowing_bank() {
    assert_eq!(
        KeyframeTrackParams::parse(",keyframes.aux2,0|99999999999999999999999,1"),
        None
    );
}

#[test]
fn parse_takes_leftmost_reference() {
    assert_eq!(
        KeyframeTrackParams::parse(",keyframes.aux2,0|1,2|,keyframes.aux2,0|3,4"),
        Some(params(1, 2))
    );
}

#[test]
fn parse_fails_on_non_ascii_digits_in_leftmost_reference() {
    // A full-width digit is a decimal digit to the pattern but not to `usize`.
    assert_eq!(KeyframeTrackParams::parse(",keyframes.aux2,0|1,２"), None);
    assert_eq!(
        KeyframeTrackParams::parse(",keyframes.aux2,0|1,２|,keyframes.aux2,0|3,4"),
        None
    );
}

#[test]
fn parse_accepts_non_ascii_digits_in_flags() {
    assert_eq!(
        KeyframeTrackParams::parse(",keyframes.aux2,１|3,4"),
        Some(params(3, 4))
    );
}

#[test]
fn set_params_on_static_value() {
    let mut track = "1.5".to_string();
    assert_eq!(params(3, 7).set_params(&mut track), Ok(()));
    assert_eq!(track, "1.5,1.5,keyframes.aux2,0|3,7|");
    assert_eq!(KeyframeTrackParams::parse(&track), Some(params(3, 7)));
}

#[test]
fn set_params_on_easing_track() {
    let mut track = "0.00,100.00,直線移動,0".to_string();
    assert_eq!(params(3, 7).set_params(&mut track), Ok(()));
    assert_eq!(track, "0.00,100.00,keyframes.aux2,0|3,7");
    assert_eq!(KeyframeTrackParams::parse(&track), Some(params(3, 7)));
}

#[test]
fn set_params_keeps_rest_after_flags() {
    let mut track = "0.00,100.00,直線移動,3|1.5|2.0".to_string();
    assert_eq!(params(3, 7).set_params(&mut track), Ok(()));
    assert_eq!(track, "0.00,100.00,keyframes.aux2,3|3,7|1.5|2.0");
    assert_eq!(KeyframeTrackParams::parse(&track), Some(params(3, 7)));
}

#[test]
fn set_params_replaces_existing_reference() {
    let mut track = "0.00,100.00,keyframes.aux2,0|1,2".to_string();
    assert_eq!(params(3, 7).set_params(&mut track), Ok(()));
    assert_eq!(track, "0.00,100.00,keyframes.aux2,0|3,7|1,2");
    assert_eq!(KeyframeTrackParams::parse(&track), Some(params(3, 7)));
}

#[test]
fn set_params_refuses_other_tracks() {
    let mut track = "abc".to_string();
    assert_eq!(
        params(3, 7).set_params(&mut track),
        Err(TrackAliasError::NoKeyframePattern)
    );
    assert_eq!(track, "abc");
    let mut track = "1.5a".to_string();
    assert_eq!(
        params(3, 7).set_params(&mut track),
        Err(TrackAliasError::NoKeyframePattern)
    );
    assert_eq!(track, "1.5a");
}

#[test]
fn set_params_at_track_start_does_not_read_back() {
    let mut track = "ease,3".to_string();
    assert_eq!(params(3, 7).set_params(&mut track), Ok(()));
    assert_eq!(track, "keyframes.aux2,3|3,7");
    assert_eq!(KeyframeTrackParams::parse(&track), None);
}

#[test]
fn new_params_draw_from_counter() {
    let mut counter = TrackIdCounter::new();
    assert_eq!(counter, TrackIdCounter { current_bank: 1, next_keyframes_id: 0 });
    let first = KeyframeTrackParams::new(&mut counter);
    let second = KeyframeTrackParams::new(&mut counter);
    assert_eq!(first, params(1, 0));
    assert_eq!(second, params(1, 1));
    assert_ne!(first, second);
    counter.change_scene();
    assert_eq!(KeyframeTrackParams::new(&mut counter), params(2, 2));
    counter.load_project(9);
    assert_eq!(KeyframeTrackParams::new(&mut counter), params(10, 3));
}
