//! How an effect of an object is classified for display, and the colour settings
//! that go with each class.
use vstd::prelude::*;

verus! {

/// The display class of an effect on an object.
#[derive(Debug, Clone, Copy, PartialEq, Eq, Hash, Structural)]
pub enum EffectType {
    Control,
    VideoInput,
    VideoEffect,
    VideoFilter,
    AudioInput,
    AudioEffect,
    AudioFilter,
}

/// The kind of an effect as the host reports it.
#[derive(Debug, Clone, Copy, PartialEq, Eq, Structural)]
pub enum HostEffectKind {
    Filter,
    Input,
    SceneChange,
    Control,
    Output,
}

/// The display class of an effect of kind `kind` (audio or not), given the class
/// of the object's first effect, if known. A filter on a control object is a
/// filter; other filters are effects; an output takes the first effect's class.
pub open spec fn classify(kind: HostEffectKind, audio: bool, first: Option<EffectType>) -> EffectType {
    match kind {
        HostEffectKind::Filter => if first == Some(EffectType::Control) {
            if audio {
                EffectType::AudioFilter
            } else {
                EffectType::VideoFilter
            }
        } else if audio {
            EffectType::AudioEffect
        } else {
            EffectType::VideoEffect
        },
        HostEffectKind::Input => if audio {
            EffectType::AudioInput
        } else {
            EffectType::VideoInput
        },
        HostEffectKind::SceneChange => EffectType::Control,
        HostEffectKind::Control => EffectType::Control,
        HostEffectKind::Output => match first {
            Some(t) => t,
            None => EffectType::Control,
        },
    }
}

/// The audio classes.
pub open spec fn is_audio_class(t: EffectType) -> bool {
    t == EffectType::AudioInput || t == EffectType::AudioEffect || t == EffectType::AudioFilter
}

/// Apart from an output, which takes the first effect's class, an effect's class
/// depends on the object's first effect only through whether that is a control.
pub proof fn lemma_classify_first_effect(
    kind: HostEffectKind,
    audio: bool,
    first_a: Option<EffectType>,
    first_b: Option<EffectType>,
)
    requires
        kind != HostEffectKind::Output,
        (first_a == Some(EffectType::Control)) == (first_b == Some(EffectType::Control)),
    ensures
        classify(kind, audio, first_a) == classify(kind, audio, first_b),
{
}

/// A filter is shown as a filter exactly on a control object and as an effect
/// otherwise, of the audio family exactly when it is audio; an input is of the
/// audio family exactly when it is audio; an output takes the first effect's
/// class, or control when there is none; scene changes and controls are controls.
pub proof fn lemma_classify_families(kind: HostEffectKind, audio: bool, first: Option<EffectType>)
    ensures
        kind == HostEffectKind::Filter ==> {
            let t = classify(kind, audio, first);
            &&& (t == EffectType::VideoFilter || t == EffectType::AudioFilter) == (first
                == Some(EffectType::Control))
            &&& (t == EffectType::VideoEffect || t == EffectType::AudioEffect) == (first
                != Some(EffectType::Control))
            &&& is_audio_class(t) == audio
        },
        kind == HostEffectKind::Input ==> {
            let t = classify(kind, audio, first);
            &&& (t == EffectType::VideoInput || t == EffectType::AudioInput)
            &&& is_audio_class(t) == audio
        },
        kind == HostEffectKind::Output ==> classify(kind, audio, first) == match first {
            Some(t) => t,
            None => EffectType::Control,
        },
        kind == HostEffectKind::SceneChange || kind == HostEffectKind::Control ==> classify(
            kind,
            audio,
            first,
        ) == EffectType::Control,
{
}

/// Executable form of [`classify`].
pub fn determine_effect_type(
    kind: HostEffectKind,
    audio: bool,
    first_effect_type: Option<EffectType>,
) -> (r: EffectType)
    ensures
        r == classify(kind, audio, first_effect_type),
{
    match kind {
        HostEffectKind::Filter => {
            let on_control = match first_effect_type {
                Some(EffectType::Control) => true,
                _ => false,
            };
            if on_control {
                if audio {
                    EffectType::AudioFilter
                } else {
                    EffectType::VideoFilter
                }
            } else if audio {
                EffectType::AudioEffect
            } else {
                EffectType::VideoEffect
            }
        },
        HostEffectKind::Input => if audio {
            EffectType::AudioInput
        } else {
            EffectType::VideoInput
        },
        HostEffectKind::SceneChange => EffectType::Control,
        HostEffectKind::Control => EffectType::Control,
        HostEffectKind::Output => match first_effect_type {
            Some(t) => t,
            None => EffectType::Control,
        },
    }
}

/// The names of the host colour settings for a class: its normal colour(s) and its
/// colour when selected.
pub fn color_keys(object_type: &EffectType) -> (r: (&'static str, &'static str))
    ensures
        match *object_type {
            EffectType::Control => r.0@ == "ObjectControl"@ && r.1@ == "ObjectControlSelect"@,
            EffectType::VideoInput => r.0@ == "ObjectVideo"@ && r.1@ == "ObjectVideoSelect"@,
            EffectType::VideoEffect => r.0@ == "ObjectVideoEffect"@ && r.1@
                == "ObjectVideoEffectSelect"@,
            EffectType::VideoFilter => r.0@ == "ObjectVideoFilter"@ && r.1@
                == "ObjectVideoFilterSelect"@,
            EffectType::AudioInput => r.0@ == "ObjectAudio"@ && r.1@ == "ObjectAudioSelect"@,
            EffectType::AudioEffect => r.0@ == "ObjectAudioEffect"@ && r.1@
                == "ObjectAudioEffectSelect"@,
            EffectType::AudioFilter => r.0@ == "ObjectAudioFilter"@ && r.1@
                == "ObjectAudioFilterSelect"@,
        },
{
    match object_type {
        EffectType::Control => ("ObjectControl", "ObjectControlSelect"),
        EffectType::VideoInput => ("ObjectVideo", "ObjectVideoSelect"),
        EffectType::VideoEffect => ("ObjectVideoEffect", "ObjectVideoEffectSelect"),
        EffectType::VideoFilter => ("ObjectVideoFilter", "ObjectVideoFilterSelect"),
        EffectType::AudioInput => ("ObjectAudio", "ObjectAudioSelect"),
        EffectType::AudioEffect => ("ObjectAudioEffect", "ObjectAudioEffectSelect"),
        EffectType::AudioFilter => ("ObjectAudioFilter", "ObjectAudioFilterSelect"),
    }
}

} // verus!
