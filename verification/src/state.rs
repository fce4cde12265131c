//! Recording state and the debounce that keeps a double press from toggling
//! twice.

use std::time::Instant;
use vstd::prelude::*;

verus! {

/// Where the recorder is in its cycle.
#[derive(Debug, Clone, Copy, PartialEq, Eq, Structural)]
pub enum RecordingState {
    Idle,
    Recording,
    Stopping,
    Transcribing,
}

impl RecordingState {
    /// The state's name as shown to users and sent to the front end.
    pub open spec fn label(self) -> Seq<char> {
        match self {
            RecordingState::Idle => "IDLE"@,
            RecordingState::Recording => "RECORDING"@,
            RecordingState::Stopping => "STOPPING"@,
            RecordingState::Transcribing => "TRANSCRIBING"@,
        }
    }

    /// The state's name: `IDLE`, `RECORDING`, `STOPPING` or `TRANSCRIBING`.
    pub fn display_name(&self) -> (r: String)
        ensures
            r@ == self.label(),
    {
        match self {
            RecordingState::Idle => "IDLE".to_owned(),
            RecordingState::Recording => "RECORDING".to_owned(),
            RecordingState::Stopping => "STOPPING".to_owned(),
            RecordingState::Transcribing => "TRANSCRIBING".to_owned(),
        }
    }
}

#[verifier::external_type_specification]
#[verifier::external_body]
pub struct ExInstant(Instant);

/// Recording state together with the time of the last toggle.
pub struct AppState {
    pub state: RecordingState,
    pub last_toggle_time: Instant,
}

/// Shortest time between two toggles, in milliseconds.
pub open spec fn debounce_ms() -> nat {
    600
}

/// Head start given at creation so the first toggle is never debounced,
/// in seconds.
pub open spec fn initial_head_start_secs() -> nat {
    10
}

/// A toggle is allowed once the debounce time has passed and the recorder
/// is idle or recording (not stopping or transcribing).
pub open spec fn toggle_allowed(state: RecordingState, elapsed_ms: nat) -> bool {
    elapsed_ms >= debounce_ms() && (state == RecordingState::Idle || state
        == RecordingState::Recording)
}

/// States reached by a toggle; entering one restarts the debounce.
pub open spec fn is_toggle_state(state: RecordingState) -> bool {
    state == RecordingState::Idle || state == RecordingState::Recording
}

/// The current instant (`Instant::now`).
#[verifier::external_body]
fn instant_now() -> Instant {
    Instant::now()
}

/// Whole milliseconds since `t` (`Instant::elapsed`, as milliseconds).
/// Nothing is said of the value: it is a clock reading.
#[verifier::external_body]
fn elapsed_ms(t: &Instant) -> u128 {
    t.elapsed().as_millis()
}

/// The instant `secs` seconds before `t` (`Instant::checked_sub`), `None`
/// where the clock cannot represent it. Nothing more is said of it.
#[verifier::external_body]
fn instant_secs_before(t: &Instant, secs: u64) -> Option<Instant> {
    t.checked_sub(std::time::Duration::from_secs(secs))
}

impl AppState {
    /// An idle state whose last toggle lies ten seconds back, so the first
    /// toggle is not debounced. Where the clock cannot go back that far the
    /// current instant is used.
    pub fn new() -> (r: Self)
        ensures
            r.state == RecordingState::Idle,
    {
        let now = instant_now();
        let last = match instant_secs_before(&now, 10) {
            Some(t) => t,
            None => now,
        };
        AppState { state: RecordingState::Idle, last_toggle_time: last }
    }

    /// Whether a toggle is allowed when `elapsed_ms` milliseconds have
    /// passed since the last one.
    pub fn can_toggle_after(&self, elapsed_ms: u128) -> (r: bool)
        ensures
            r == toggle_allowed(self.state, elapsed_ms as nat),
    {
        elapsed_ms >= 600 && (self.state == RecordingState::Idle || self.state
            == RecordingState::Recording)
    }

    /// Whether a toggle is allowed now: 600 ms have passed since the last
    /// one and the recorder is idle or recording.
    pub fn can_toggle(&self) -> (r: bool)
        ensures
            r ==> is_toggle_state(self.state),
    {
        let e = elapsed_ms(&self.last_toggle_time);
        self.can_toggle_after(e)
    }

    /// Moves to `new_state` and returns the state left. Entering `Idle` or
    /// `Recording` restarts the debounce.
    pub fn set_state(&mut self, new_state: RecordingState) -> (r: RecordingState)
        ensures
            r == old(self).state,
            final(self).state == new_state,
            !is_toggle_state(new_state) ==> final(self).last_toggle_time == old(
                self,
            ).last_toggle_time,
    {
        let old_state = self.state;
        self.state = new_state;
        if new_state == RecordingState::Recording || new_state == RecordingState::Idle {
            self.last_toggle_time = instant_now();
        }
        old_state
    }
}

} // verus!
