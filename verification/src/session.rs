//! The decisions of one recording session: what a toggle does, which state
//! and sound follow each step, and what happens to a finished transcript.

use vstd::prelude::*;
use crate::postprocess::{cleaned, cleanup};
use crate::sound::SoundType;
use crate::state::{RecordingState, debounce_ms, toggle_allowed};

verus! {

/// What a toggle request does.
#[derive(Debug, Clone, Copy, PartialEq, Eq, Structural)]
pub enum ToggleAction {
    StartRecording,
    StopRecording,
    Ignore,
}

/// What a toggle does in `state` when toggling is (not) allowed.
pub open spec fn toggle_action_spec(state: RecordingState, can_toggle: bool) -> ToggleAction {
    if !can_toggle {
        ToggleAction::Ignore
    } else {
        match state {
            RecordingState::Idle => ToggleAction::StartRecording,
            RecordingState::Recording => ToggleAction::StopRecording,
            _ => ToggleAction::Ignore,
        }
    }
}

/// A toggle starts recording when idle, stops it when recording, and does
/// nothing otherwise or when toggling is not allowed.
pub fn toggle_action(state: RecordingState, can_toggle: bool) -> (r: ToggleAction)
    ensures
        r == toggle_action_spec(state, can_toggle),
{
    if !can_toggle {
        return ToggleAction::Ignore;
    }
    match state {
        RecordingState::Idle => ToggleAction::StartRecording,
        RecordingState::Recording => ToggleAction::StopRecording,
        _ => ToggleAction::Ignore,
    }
}

/// While stopping or transcribing, and within the debounce time, a toggle
/// request does nothing.
pub proof fn law_toggle_ignored_when_busy_or_too_soon(state: RecordingState, elapsed_ms: nat)
    ensures
        (state == RecordingState::Stopping || state == RecordingState::Transcribing
            || elapsed_ms < debounce_ms()) ==> toggle_action_spec(
            state,
            toggle_allowed(state, elapsed_ms),
        ) == ToggleAction::Ignore,
        (elapsed_ms >= debounce_ms() && state == RecordingState::Idle) ==> toggle_action_spec(
            state,
            toggle_allowed(state, elapsed_ms),
        ) == ToggleAction::StartRecording,
        (elapsed_ms >= debounce_ms() && state == RecordingState::Recording) ==> toggle_action_spec(
            state,
            toggle_allowed(state, elapsed_ms),
        ) == ToggleAction::StopRecording,
{
}

/// Something that happened during a session.
#[derive(Debug, Clone, Copy, PartialEq, Eq, Structural)]
pub enum SessionEvent {
    /// Recording was asked to start.
    StartRequested,
    /// The recorder could not start.
    StartFailed,
    /// Recording was asked to stop.
    StopRequested,
    /// There was no recorder to stop.
    NoRecorder,
    /// Stopping the recorder failed.
    StopFailed,
    /// The recording was saved.
    RecordingSaved,
    /// No API key is configured.
    ApiKeyMissing,
    /// The transcript was delivered.
    TranscriptionDone,
    /// Transcription failed.
    TranscriptionFailed,
}

/// The state to enter after an event, and the sound to play (if sounds are
/// enabled).
#[derive(Debug, Clone, Copy, PartialEq, Eq, Structural)]
pub struct SessionStep {
    pub next_state: RecordingState,
    pub sound: Option<SoundType>,
}

/// The state entered after `event`.
pub open spec fn state_after(event: SessionEvent) -> RecordingState {
    match event {
        SessionEvent::StartRequested => RecordingState::Recording,
        SessionEvent::StopRequested => RecordingState::Stopping,
        SessionEvent::RecordingSaved => RecordingState::Transcribing,
        _ => RecordingState::Idle,
    }
}

/// The sound that goes with `event`, before muting.
pub open spec fn sound_for(event: SessionEvent) -> Option<SoundType> {
    match event {
        SessionEvent::StartRequested => Some(SoundType::Start),
        SessionEvent::StopRequested => Some(SoundType::Stop),
        SessionEvent::TranscriptionDone => Some(SoundType::Success),
        SessionEvent::StartFailed => Some(SoundType::Error),
        SessionEvent::StopFailed => Some(SoundType::Error),
        SessionEvent::ApiKeyMissing => Some(SoundType::Error),
        SessionEvent::TranscriptionFailed => Some(SoundType::Error),
        _ => None,
    }
}

/// Every way a session ends, by failure or by delivering its text, returns
/// the recorder to idle; only starting, stopping and a saved recording lead
/// elsewhere.
pub proof fn law_sessions_end_idle(event: SessionEvent)
    ensures
        state_after(event) != RecordingState::Idle <==> (event == SessionEvent::StartRequested
            || event == SessionEvent::StopRequested || event == SessionEvent::RecordingSaved),
        sound_for(event) == Some(SoundType::Error) ==> state_after(event)
            == RecordingState::Idle,
{
}

/// The step that follows `event`; sounds only when they are enabled.
pub fn session_step(event: SessionEvent, sounds_enabled: bool) -> (r: SessionStep)
    ensures
        r.next_state == state_after(event),
        r.sound == (if sounds_enabled {
            sound_for(event)
        } else {
            None
        }),
{
    let (next_state, sound) = match event {
        SessionEvent::StartRequested => (RecordingState::Recording, Some(SoundType::Start)),
        SessionEvent::StartFailed => (RecordingState::Idle, Some(SoundType::Error)),
        SessionEvent::StopRequested => (RecordingState::Stopping, Some(SoundType::Stop)),
        SessionEvent::NoRecorder => (RecordingState::Idle, None),
        SessionEvent::StopFailed => (RecordingState::Idle, Some(SoundType::Error)),
        SessionEvent::RecordingSaved => (RecordingState::Transcribing, None),
        SessionEvent::ApiKeyMissing => (RecordingState::Idle, Some(SoundType::Error)),
        SessionEvent::TranscriptionDone => (RecordingState::Idle, Some(SoundType::Success)),
        SessionEvent::TranscriptionFailed => (RecordingState::Idle, Some(SoundType::Error)),
    };
    SessionStep { next_state, sound: if sounds_enabled { sound } else { None } }
}

/// The stages of stopping a recording; each ends with an outside outcome
/// (found, stopped, configured, transcribed) that is either good or not.
#[derive(Debug, Clone, Copy, PartialEq, Eq, Structural)]
pub enum StopStage {
    /// Take the running recorder.
    FindRecorder,
    /// Stop it and save the recording.
    StopRecorder,
    /// Check that an API key is configured.
    CheckApiKey,
    /// Send the recording for transcription and deliver the text.
    Transcribe,
}

/// After `stage` ended well (`ok`) or not: the event to apply, if any, and
/// the next stage, if the stop goes on.
pub open spec fn stop_stage_step(stage: StopStage, ok: bool) -> (Option<SessionEvent>, Option<StopStage>) {
    match stage {
        StopStage::FindRecorder => if ok {
            (None, Some(StopStage::StopRecorder))
        } else {
            (Some(SessionEvent::NoRecorder), None)
        },
        StopStage::StopRecorder => if ok {
            (Some(SessionEvent::RecordingSaved), Some(StopStage::CheckApiKey))
        } else {
            (Some(SessionEvent::StopFailed), None)
        },
        StopStage::CheckApiKey => if ok {
            (None, Some(StopStage::Transcribe))
        } else {
            (Some(SessionEvent::ApiKeyMissing), None)
        },
        StopStage::Transcribe => if ok {
            (Some(SessionEvent::TranscriptionDone), None)
        } else {
            (Some(SessionEvent::TranscriptionFailed), None)
        },
    }
}

/// What follows the end of `stage`: a missing recorder, a failed stop, a
/// missing key or a failed transcription ends the stop; otherwise the next
/// stage follows, a saved recording moving to transcribing.
pub fn stop_step(stage: StopStage, ok: bool) -> (r: (Option<SessionEvent>, Option<StopStage>))
    ensures
        r == stop_stage_step(stage, ok),
{
    match stage {
        StopStage::FindRecorder => if ok {
            (None, Some(StopStage::StopRecorder))
        } else {
            (Some(SessionEvent::NoRecorder), None)
        },
        StopStage::StopRecorder => if ok {
            (Some(SessionEvent::RecordingSaved), Some(StopStage::CheckApiKey))
        } else {
            (Some(SessionEvent::StopFailed), None)
        },
        StopStage::CheckApiKey => if ok {
            (None, Some(StopStage::Transcribe))
        } else {
            (Some(SessionEvent::ApiKeyMissing), None)
        },
        StopStage::Transcribe => if ok {
            (Some(SessionEvent::TranscriptionDone), None)
        } else {
            (Some(SessionEvent::TranscriptionFailed), None)
        },
    }
}

/// The state after applying an optional event.
pub open spec fn apply_event(state: RecordingState, event: Option<SessionEvent>) -> RecordingState {
    match event {
        Some(e) => state_after(e),
        None => state,
    }
}

/// Running a stop from `stage` in `state` with the stage outcomes
/// `outcomes`, in order: the state reached and the stage still pending.
pub open spec fn stop_run(
    state: RecordingState,
    stage: Option<StopStage>,
    outcomes: Seq<bool>,
) -> (RecordingState, Option<StopStage>)
    decreases outcomes.len(),
{
    match stage {
        None => (state, None),
        Some(st) => if outcomes.len() == 0 {
            (state, stage)
        } else {
            let (event, next) = stop_stage_step(st, outcomes[0]);
            stop_run(apply_event(state, event), next, outcomes.drop_first())
        },
    }
}

/// A stop never returns to recording, however far it has got.
proof fn lemma_stop_never_records(state: RecordingState, stage: Option<StopStage>, outcomes: Seq<bool>)
    requires
        state != RecordingState::Recording,
    ensures
        stop_run(state, stage, outcomes).0 != RecordingState::Recording,
    decreases outcomes.len(),
{
    if let Some(st) = stage {
        if outcomes.len() > 0 {
            let (event, next) = stop_stage_step(st, outcomes[0]);
            lemma_stop_never_records(apply_event(state, event), next, outcomes.drop_first());
        }
    }
}

/// A stop requested while recording moves to stopping and, whatever the
/// outcomes of its stages, is over after at most four of them and leaves
/// the recorder idle; on the way it never returns to recording.
pub proof fn law_stop_ends_idle(outcomes: Seq<bool>)
    requires
        outcomes.len() >= 4,
    ensures
        state_after(SessionEvent::StopRequested) == RecordingState::Stopping,
        stop_run(RecordingState::Stopping, Some(StopStage::FindRecorder), outcomes) == (
            RecordingState::Idle,
            None::<StopStage>,
        ),
        forall|m: int|
            0 <= m <= outcomes.len() ==> #[trigger] stop_run(
                RecordingState::Stopping,
                Some(StopStage::FindRecorder),
                outcomes.take(m),
            ).0 != RecordingState::Recording,
{
    reveal_with_fuel(stop_run, 5);
    let o = outcomes;
    let o1 = o.drop_first();
    let o2 = o1.drop_first();
    let o3 = o2.drop_first();
    assert(o1[0] == o[1] && o2[0] == o[2] && o3[0] == o[3]);
    assert forall|m: int| 0 <= m <= o.len() implies #[trigger] stop_run(
        RecordingState::Stopping,
        Some(StopStage::FindRecorder),
        o.take(m),
    ).0 != RecordingState::Recording by {
        lemma_stop_never_records(RecordingState::Stopping, Some(StopStage::FindRecorder), o.take(m));
    }
}

/// What to do with a transcript.
#[derive(Debug, Clone)]
pub struct Delivery {
    /// The cleaned-up text.
    pub text: String,
    /// Save the recording and text as a dataset pair.
    pub save_to_dataset: bool,
    /// Paste into the frontmost application (otherwise only copy).
    pub paste: bool,
}

/// A transcript is cleaned up, saved when dataset collection is on, and
/// pasted when auto-paste is on (copied otherwise).
pub fn plan_delivery(raw_text: &str, dataset_enabled: bool, auto_paste: bool) -> (r: Delivery)
    ensures
        r.text@ == cleaned(raw_text@),
        r.save_to_dataset == dataset_enabled,
        r.paste == auto_paste,
{
    Delivery { text: cleanup(raw_text), save_to_dataset: dataset_enabled, paste: auto_paste }
}

} // verus!
