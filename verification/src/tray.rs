//! How the menu-bar icon looks in each recording state; drawing it is the
//! application's part.

use vstd::prelude::*;
use crate::state::RecordingState;

verus! {

/// The icon images.
#[derive(Debug, Clone, Copy, PartialEq, Eq, Structural)]
pub enum TrayIconImage {
    Idle,
    Recording,
    Transcribing,
}

/// Icon, tooltip and whether the icon is drawn as a template image.
#[derive(Debug, Clone)]
pub struct TrayAppearance {
    pub icon: TrayIconImage,
    pub tooltip: String,
    pub is_template: bool,
}

/// The appearance of the icon in `state`.
pub open spec fn appearance_matches(a: TrayAppearance, state: RecordingState) -> bool {
    match state {
        RecordingState::Idle => a.icon == TrayIconImage::Idle && a.tooltip@
            == "Spoko Whisper — Idle"@ && a.is_template,
        RecordingState::Recording => a.icon == TrayIconImage::Recording && a.tooltip@
            == "Spoko Whisper — Recording..."@ && !a.is_template,
        RecordingState::Stopping => a.icon == TrayIconImage::Recording && a.tooltip@
            == "Spoko Whisper — Stopping..."@ && !a.is_template,
        RecordingState::Transcribing => a.icon == TrayIconImage::Transcribing && a.tooltip@
            == "Spoko Whisper — Transcribing..."@ && a.is_template,
    }
}

/// The icon, tooltip and template flag for `state`.
pub fn tray_appearance(state: RecordingState) -> (r: TrayAppearance)
    ensures
        appearance_matches(r, state),
{
    match state {
        RecordingState::Idle => TrayAppearance {
            icon: TrayIconImage::Idle,
            tooltip: "Spoko Whisper — Idle".to_owned(),
            is_template: true,
        },
        RecordingState::Recording => TrayAppearance {
            icon: TrayIconImage::Recording,
            tooltip: "Spoko Whisper — Recording...".to_owned(),
            is_template: false,
        },
        RecordingState::Stopping => TrayAppearance {
            icon: TrayIconImage::Recording,
            tooltip: "Spoko Whisper — Stopping...".to_owned(),
            is_template: false,
        },
        RecordingState::Transcribing => TrayAppearance {
            icon: TrayIconImage::Transcribing,
            tooltip: "Spoko Whisper — Transcribing...".to_owned(),
            is_template: true,
        },
    }
}

} // verus!
