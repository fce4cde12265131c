use spoko_whisper::session::{plan_delivery, session_step, stop_step, toggle_action, SessionEvent, StopStage, ToggleAction};
use spoko_whisper::sound::SoundType;
use spoko_whisper::state::{AppState, RecordingState};
use spoko_whisper::tray::{tray_appearance, TrayIconImage};

#[test]
fn toggles() {
    assert_eq!(toggle_action(RecordingState::Idle, true), ToggleAction::StartRecording);
    assert_eq!(toggle_action(RecordingState::Recording, true), ToggleAction::StopRecording);
    assert_eq!(toggle_action(RecordingState::Stopping, true), ToggleAction::Ignore);
    assert_eq!(toggle_action(RecordingState::Transcribing, true), ToggleAction::Ignore);
    assert_eq!(toggle_action(RecordingState::Idle, false), ToggleAction::Ignore);
}

#[test]
fn steps_with_sounds() {
    let s = session_step(SessionEvent::StartRequested, true);
    assert_eq!(s.next_state, RecordingState::Recording);
    assert_eq!(s.sound, Some(SoundType::Start));
    let s = session_step(SessionEvent::StopRequested, true);
    assert_eq!((s.next_state, s.sound), (RecordingState::Stopping, Some(SoundType::Stop)));
    let s = session_step(SessionEvent::RecordingSaved, true);
    assert_eq!((s.next_state, s.sound), (RecordingState::Transcribing, None));
    let s = session_step(SessionEvent::TranscriptionDone, true);
    assert_eq!((s.next_state, s.sound), (RecordingState::Idle, Some(SoundType::Success)));
    for e in [SessionEvent::StartFailed, SessionEvent::StopFailed, SessionEvent::ApiKeyMissing, SessionEvent::TranscriptionFailed] {
        let s = session_step(e, true);
        assert_eq!((s.next_state, s.sound), (RecordingState::Idle, Some(SoundType::Error)));
    }
    let s = session_step(SessionEvent::NoRecorder, true);
    assert_eq!((s.next_state, s.sound), (RecordingState::Idle, None));
}

#[test]
fn muted_steps() {
    for e in [SessionEvent::StartRequested, SessionEvent::TranscriptionDone, SessionEvent::StartFailed] {
        assert_eq!(session_step(e, false).sound, None);
    }
}

#[test]
fn delivery_cleans_text() {
    let d = plan_delivery("  так так так  ", true, false);
    assert_eq!(d.text, "так так");
    assert!(d.save_to_dataset);
    assert!(!d.paste);
}

#[test]
fn tray_looks() {
    let a = tray_appearance(RecordingState::Idle);
    assert_eq!((a.icon, a.tooltip.as_str(), a.is_template), (TrayIconImage::Idle, "Spoko Whisper — Idle", true));
    let a = tray_appearance(RecordingState::Recording);
    assert_eq!((a.icon, a.tooltip.as_str(), a.is_template), (TrayIconImage::Recording, "Spoko Whisper — Recording...", false));
    let a = tray_appearance(RecordingState::Stopping);
    assert_eq!((a.icon, a.tooltip.as_str(), a.is_template), (TrayIconImage::Recording, "Spoko Whisper — Stopping...", false));
    let a = tray_appearance(RecordingState::Transcribing);
    assert_eq!((a.icon, a.tooltip.as_str(), a.is_template), (TrayIconImage::Transcribing, "Spoko Whisper — Transcribing...", true));
}

#[test]
fn busy_or_recent_toggles_are_ignored() {
    let mut s = AppState::new();
    for busy in [RecordingState::Stopping, RecordingState::Transcribing] {
        s.set_state(busy);
        assert_eq!(toggle_action(s.state, s.can_toggle_after(60_000)), ToggleAction::Ignore);
    }
    s.set_state(RecordingState::Idle);
    assert_eq!(toggle_action(s.state, s.can_toggle_after(100)), ToggleAction::Ignore);
    assert_eq!(toggle_action(s.state, s.can_toggle_after(600)), ToggleAction::StartRecording);
}

#[test]
fn stop_stages() {
    assert_eq!(stop_step(StopStage::FindRecorder, false), (Some(SessionEvent::NoRecorder), None));
    assert_eq!(stop_step(StopStage::FindRecorder, true), (None, Some(StopStage::StopRecorder)));
    assert_eq!(stop_step(StopStage::StopRecorder, false), (Some(SessionEvent::StopFailed), None));
    assert_eq!(stop_step(StopStage::StopRecorder, true), (Some(SessionEvent::RecordingSaved), Some(StopStage::CheckApiKey)));
    assert_eq!(stop_step(StopStage::CheckApiKey, false), (Some(SessionEvent::ApiKeyMissing), None));
    assert_eq!(stop_step(StopStage::CheckApiKey, true), (None, Some(StopStage::Transcribe)));
    assert_eq!(stop_step(StopStage::Transcribe, true), (Some(SessionEvent::TranscriptionDone), None));
    assert_eq!(stop_step(StopStage::Transcribe, false), (Some(SessionEvent::TranscriptionFailed), None));
}

#[test]
fn every_stop_ends_idle() {
    for bits in 0u8..16 {
        let mut state = session_step(SessionEvent::StopRequested, true).next_state;
        assert_eq!(state, RecordingState::Stopping);
        let mut stage = Some(StopStage::FindRecorder);
        let mut i = 0;
        while let Some(st) = stage {
            let (event, next) = stop_step(st, bits & (1 << i) != 0);
            if let Some(e) = event {
                state = session_step(e, true).next_state;
            }
            assert_ne!(state, RecordingState::Recording);
            stage = next;
            i += 1;
        }
        assert!(i <= 4);
        assert_eq!(state, RecordingState::Idle);
    }
}
