use spoko_whisper::state::{AppState, RecordingState};

#[test]
fn names_of_states() {
    assert_eq!(RecordingState::Idle.display_name(), "IDLE");
    assert_eq!(RecordingState::Recording.display_name(), "RECORDING");
    assert_eq!(RecordingState::Stopping.display_name(), "STOPPING");
    assert_eq!(RecordingState::Transcribing.display_name(), "TRANSCRIBING");
}

#[test]
fn new_state_is_idle_and_can_toggle() {
    let s = AppState::new();
    assert_eq!(s.state, RecordingState::Idle);
    assert!(s.can_toggle());
}

#[test]
fn debounce_and_busy_states() {
    let mut s = AppState::new();
    assert!(!s.can_toggle_after(599));
    assert!(s.can_toggle_after(600));
    assert_eq!(s.set_state(RecordingState::Stopping), RecordingState::Idle);
    assert!(!s.can_toggle_after(10_000));
    assert_eq!(s.set_state(RecordingState::Transcribing), RecordingState::Stopping);
    assert!(!s.can_toggle_after(10_000));
    assert_eq!(s.set_state(RecordingState::Recording), RecordingState::Transcribing);
    assert!(s.can_toggle_after(600));
}

#[test]
fn toggle_right_after_a_toggle_is_refused() {
    let mut s = AppState::new();
    s.set_state(RecordingState::Recording);
    assert!(!s.can_toggle());
}
