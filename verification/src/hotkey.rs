//! The Right Command tap: pausing with a grace period after resuming, and
//! the per-event decisions that turn a lone tap into a toggle. The event
//! monitors themselves belong to the application.

use vstd::prelude::*;

verus! {

/// Milliseconds after resuming during which taps are ignored.
pub open spec fn resume_grace_ms() -> nat {
    1000
}

/// Shortest time between two tap toggles, in milliseconds.
pub open spec fn tap_debounce_ms() -> nat {
    600
}

/// Longest press that still counts as a tap, in milliseconds.
pub open spec fn tap_max_ms() -> nat {
    2000
}

/// `a - b`, or 0 when `b` is later.
pub open spec fn elapsed(a: int, b: int) -> int {
    if a >= b {
        a - b
    } else {
        0
    }
}

/// Whether the tap watcher is paused, and when (in wall-clock milliseconds)
/// it was last resumed.
#[derive(Debug, Clone, Copy)]
pub struct WatcherGate {
    pub paused: bool,
    pub resumed_at_ms: u64,
}

/// Whether taps count at `now_ms` for a watcher in state `g`.
pub open spec fn gate_active(g: WatcherGate, now_ms: u64) -> bool {
    !g.paused && elapsed(now_ms as int, g.resumed_at_ms as int) >= resume_grace_ms()
}

/// A paused watcher ignores taps; one resumed at `resumed_ms` ignores them
/// for the next second and takes them from then on.
pub proof fn law_resume_grace(g: WatcherGate, resumed_ms: u64, later_ms: u64)
    ensures
        g.paused ==> !gate_active(g, later_ms),
        later_ms >= resumed_ms ==> (gate_active(
            WatcherGate { paused: false, resumed_at_ms: resumed_ms },
            later_ms,
        ) <==> later_ms >= resumed_ms + resume_grace_ms()),
{
}

impl WatcherGate {
    /// A running watcher that was never resumed.
    pub fn new() -> (r: Self)
        ensures
            !r.paused,
            r.resumed_at_ms == 0,
    {
        WatcherGate { paused: false, resumed_at_ms: 0 }
    }

    /// Pauses or resumes the watcher; resuming at `now_ms` starts the grace
    /// period.
    pub fn set_paused(&mut self, paused: bool, now_ms: u64)
        ensures
            final(self).paused == paused,
            final(self).resumed_at_ms == (if paused {
                old(self).resumed_at_ms
            } else {
                now_ms
            }),
    {
        self.paused = paused;
        if !paused {
            self.resumed_at_ms = now_ms;
        }
    }

    /// Whether taps count at `now_ms`: not paused, and the grace period
    /// after the last resume is over.
    pub fn is_active(&self, now_ms: u64) -> (r: bool)
        ensures
            r == gate_active(*self, now_ms),
    {
        if self.paused {
            return false;
        }
        now_ms.saturating_sub(self.resumed_at_ms) >= 1000
    }
}

/// Name of the hotkey setting that selects the Right Command tap rather
/// than a global shortcut.
pub open spec fn right_command_setting() -> Seq<char> {
    "RightCommand"@
}

/// Whether a hotkey setting selects the Right Command tap (which needs no
/// global shortcut registration).
pub fn is_right_command(hotkey: &str) -> (r: bool)
    ensures
        r == (hotkey@ == right_command_setting()),
{
    let h = crate::text::chars_of(hotkey);
    let rc = crate::text::chars_of("RightCommand");
    crate::text::chars_eq(&h, &rc)
}

/// A keyboard event as far as the tap logic cares.
#[derive(Debug, Clone, Copy, PartialEq, Eq, Structural)]
pub enum KeyEvent {
    /// The Right Command key went down (`true`) or up (`false`).
    RightCommand(bool),
    /// Some key was pressed.
    KeyDown,
    /// Anything else.
    Other,
}

/// Event type code of a modifier change.
pub open spec fn flags_changed_type() -> u64 {
    12
}

/// Event type code of a key press.
pub open spec fn key_down_type() -> u64 {
    10
}

/// Key code of the Right Command key.
pub open spec fn right_command_keycode() -> u16 {
    54
}

/// Modifier flag bit of the Command key.
pub open spec fn command_flag() -> u64 {
    0x100000
}

/// The event an event type, key code and modifier flags describe.
pub open spec fn key_event_of(event_type: u64, keycode: u16, modifier_flags: u64) -> KeyEvent {
    if event_type == flags_changed_type() {
        if keycode == right_command_keycode() {
            KeyEvent::RightCommand((modifier_flags & command_flag()) != 0)
        } else {
            KeyEvent::Other
        }
    } else if event_type == key_down_type() {
        KeyEvent::KeyDown
    } else {
        KeyEvent::Other
    }
}

/// A Right Command modifier change is a press exactly when the Command bit
/// (`1 << 20`) is set, whatever the other modifier bits (Caps Lock, Shift,
/// ...) are; other key codes and event types never count as Right Command.
pub proof fn law_command_bit_decides(flags: u64, keycode: u16, event_type: u64)
    ensures
        key_event_of(12, 54, flags) == KeyEvent::RightCommand((flags >> 20u64) & 1 == 1),
        key_event_of(12, 54, flags) == key_event_of(12, 54, flags & 0x100000),
        key_event_of(12, 54, flags | 0x100000) == KeyEvent::RightCommand(true),
        key_event_of(12, 54, flags & !0x100000u64) == KeyEvent::RightCommand(false),
        keycode != 54 ==> !(key_event_of(event_type, keycode, flags) matches KeyEvent::RightCommand(_)),
        event_type != 12 ==> !(key_event_of(event_type, keycode, flags) matches KeyEvent::RightCommand(_)),
        key_event_of(10, keycode, flags) == KeyEvent::KeyDown,
{
    assert(((flags & 0x100000) != 0) == ((flags >> 20u64) & 1 == 1)) by (bit_vector);
    assert(((flags & 0x100000) & 0x100000) == (flags & 0x100000)) by (bit_vector);
    assert(((flags | 0x100000) & 0x100000) != 0) by (bit_vector);
    assert(((flags & !0x100000u64) & 0x100000) == 0) by (bit_vector);
}

/// Reads an event: a modifier change of the Right Command key (with the
/// Command flag telling down from up), a key press, or something else.
pub fn classify_event(event_type: u64, keycode: u16, modifier_flags: u64) -> (r: KeyEvent)
    ensures
        r == key_event_of(event_type, keycode, modifier_flags),
{
    if event_type == 12 {
        if keycode == 54 {
            KeyEvent::RightCommand((modifier_flags & 0x100000) != 0)
        } else {
            KeyEvent::Other
        }
    } else if event_type == 10 {
        KeyEvent::KeyDown
    } else {
        KeyEvent::Other
    }
}

/// What the tap detector remembers, with times in milliseconds of a
/// monotonic clock.
#[derive(Debug, Clone, Copy)]
pub struct TapState {
    pub right_cmd_down: bool,
    pub used_as_modifier: bool,
    pub down_time_ms: u64,
    /// When the last tap toggled; `None` before the first.
    pub last_toggle_ms: Option<u64>,
}

/// A release at `now_ms` toggles: the key was down, no other key was
/// pressed meanwhile, the press was short, the last toggle is not too recent
/// and the watcher is active.
pub open spec fn release_toggles(s: TapState, now_ms: u64, active: bool) -> bool {
    &&& s.right_cmd_down
    &&& !s.used_as_modifier
    &&& elapsed(now_ms as int, s.down_time_ms as int) < tap_max_ms()
    &&& match s.last_toggle_ms {
        Some(t) => elapsed(now_ms as int, t as int) >= tap_debounce_ms(),
        None => true,
    }
    &&& active
}

/// The state after event `ev` at `now_ms`, and whether it toggles.
pub open spec fn tap_step(s: TapState, ev: KeyEvent, now_ms: u64, active: bool) -> (TapState, bool) {
    match ev {
        KeyEvent::RightCommand(true) => (
            TapState { right_cmd_down: true, used_as_modifier: false, down_time_ms: now_ms, ..s },
            false,
        ),
        KeyEvent::RightCommand(false) => {
            if s.right_cmd_down {
                let toggles = release_toggles(s, now_ms, active);
                (
                    TapState {
                        right_cmd_down: false,
                        used_as_modifier: false,
                        last_toggle_ms: if toggles {
                            Some(now_ms)
                        } else {
                            s.last_toggle_ms
                        },
                        ..s
                    },
                    toggles,
                )
            } else {
                (s, false)
            }
        },
        KeyEvent::KeyDown => {
            if s.right_cmd_down {
                (TapState { used_as_modifier: true, ..s }, false)
            } else {
                (s, false)
            }
        },
        KeyEvent::Other => (s, false),
    }
}

/// A tap toggles only on release of the Right Command key while the
/// watcher is active, at least 600 ms after the previous toggle, and then
/// records the time; any other event leaves the last toggle time alone.
pub proof fn law_tap_toggles_spaced(s: TapState, ev: KeyEvent, now_ms: u64, active: bool)
    ensures
        tap_step(s, ev, now_ms, active).1 ==> {
            &&& ev == KeyEvent::RightCommand(false)
            &&& active
            &&& (s.last_toggle_ms matches Some(t) ==> elapsed(now_ms as int, t as int)
                >= tap_debounce_ms())
            &&& tap_step(s, ev, now_ms, active).0.last_toggle_ms == Some(now_ms)
        },
        !tap_step(s, ev, now_ms, active).1 ==> tap_step(s, ev, now_ms, active).0.last_toggle_ms
            == s.last_toggle_ms,
{
}

/// Pressing another key while Right Command is held makes it a modifier:
/// its release does not toggle.
pub proof fn law_modifier_use_cancels_tap(s: TapState, t1: u64, t2: u64, active: bool)
    requires
        s.right_cmd_down,
    ensures
        !tap_step(tap_step(s, KeyEvent::KeyDown, t1, active).0, KeyEvent::RightCommand(false), t2, active).1,
{
}

/// A timed keyboard event: the event, the clock reading in milliseconds
/// and whether the watcher was active.
pub type TimedEvent = (KeyEvent, u64, bool);

/// Whether `e` is a Right Command event (press or release).
pub open spec fn is_right_command_event(e: KeyEvent) -> bool {
    e matches KeyEvent::RightCommand(_)
}

/// Index of the last Right Command event among the first `n` events, or -1.
pub open spec fn last_command_event(evs: Seq<TimedEvent>, n: int) -> int
    decreases n,
{
    if n <= 0 {
        -1
    } else if is_right_command_event(evs[n - 1].0) {
        n - 1
    } else {
        last_command_event(evs, n - 1)
    }
}

/// Some key was pressed strictly between event `p` and event `n`.
pub open spec fn key_down_between(evs: Seq<TimedEvent>, p: int, n: int) -> bool
    decreases n - p,
{
    if n <= p + 1 {
        false
    } else {
        key_down_between(evs, p, n - 1) || evs[n - 1].0 == KeyEvent::KeyDown
    }
}

/// Event `k` is a qualifying tap: a release of Right Command whose press is
/// the last Right Command event before it, with no key pressed in between,
/// held under two seconds, while the watcher is active, and at least 600 ms
/// after the previous qualifying tap (any time for the first).
pub open spec fn qualifying_tap(evs: Seq<TimedEvent>, k: int) -> bool
    decreases k, 1int,
{
    if 0 <= k < evs.len() && evs[k].0 == KeyEvent::RightCommand(false) {
        let p = last_command_event(evs, k);
        let j = last_qualifying_tap(evs, k);
        &&& 0 <= p
        &&& evs[p].0 == KeyEvent::RightCommand(true)
        &&& !key_down_between(evs, p, k)
        &&& elapsed(evs[k].1 as int, evs[p].1 as int) < tap_max_ms()
        &&& evs[k].2
        &&& (j < 0 || elapsed(evs[k].1 as int, evs[j].1 as int) >= tap_debounce_ms())
    } else {
        false
    }
}

/// Index of the last qualifying tap among the first `n` events, or -1.
pub open spec fn last_qualifying_tap(evs: Seq<TimedEvent>, n: int) -> int
    decreases n, 0int,
{
    if n <= 0 {
        -1
    } else if qualifying_tap(evs, n - 1) {
        n - 1
    } else {
        last_qualifying_tap(evs, n - 1)
    }
}

/// The detector's state after the first `n` events, starting from `s0`.
pub open spec fn tap_run(s0: TapState, evs: Seq<TimedEvent>, n: int) -> TapState
    decreases n,
{
    if n <= 0 || n > evs.len() {
        s0
    } else {
        tap_step(tap_run(s0, evs, n - 1), evs[n - 1].0, evs[n - 1].1, evs[n - 1].2).0
    }
}

/// What the detector remembers after `n` events matches the event history.
proof fn lemma_tap_run_history(s0: TapState, evs: Seq<TimedEvent>, n: int)
    requires
        !s0.right_cmd_down,
        s0.last_toggle_ms is None,
        0 <= n <= evs.len(),
    ensures
        ({
            let s = tap_run(s0, evs, n);
            let p = last_command_event(evs, n);
            let j = last_qualifying_tap(evs, n);
            &&& -1 <= p < n
            &&& -1 <= j < n
            &&& s.right_cmd_down == (p >= 0 && evs[p].0 == KeyEvent::RightCommand(true))
            &&& s.right_cmd_down ==> s.down_time_ms == evs[p].1 && s.used_as_modifier
                == key_down_between(evs, p, n)
            &&& s.last_toggle_ms == (if j >= 0 {
                Some(evs[j].1)
            } else {
                None
            })
        }),
    decreases n, 0int,
{
    if n > 0 {
        lemma_tap_run_history(s0, evs, n - 1);
        lemma_tap_step_matches(s0, evs, n - 1);
    }
}

/// Step `k` of the run toggles exactly when event `k` is a qualifying tap.
proof fn lemma_tap_step_matches(s0: TapState, evs: Seq<TimedEvent>, k: int)
    requires
        !s0.right_cmd_down,
        s0.last_toggle_ms is None,
        0 <= k < evs.len(),
    ensures
        tap_step(tap_run(s0, evs, k), evs[k].0, evs[k].1, evs[k].2).1 == qualifying_tap(evs, k),
    decreases k, 1int,
{
    lemma_tap_run_history(s0, evs, k);
}

/// Over any run of key events from a fresh detector, a toggle is sent
/// exactly at each qualifying tap and nowhere else.
pub proof fn law_tap_sequence(s0: TapState, evs: Seq<TimedEvent>)
    requires
        !s0.right_cmd_down,
        s0.last_toggle_ms is None,
    ensures
        forall|k: int|
            0 <= k < evs.len() ==> #[trigger] tap_step(
                tap_run(s0, evs, k),
                evs[k].0,
                evs[k].1,
                evs[k].2,
            ).1 == qualifying_tap(evs, k),
{
    assert forall|k: int| 0 <= k < evs.len() implies #[trigger] tap_step(
        tap_run(s0, evs, k),
        evs[k].0,
        evs[k].1,
        evs[k].2,
    ).1 == qualifying_tap(evs, k) by {
        lemma_tap_step_matches(s0, evs, k);
    }
}

impl TapState {
    /// Nothing pressed, no toggle yet.
    pub fn new() -> (r: Self)
        ensures
            !r.right_cmd_down,
            !r.used_as_modifier,
            r.down_time_ms == 0,
            r.last_toggle_ms is None,
    {
        TapState {
            right_cmd_down: false,
            used_as_modifier: false,
            down_time_ms: 0,
            last_toggle_ms: None,
        }
    }

    /// Handles `ev` at `now_ms` (`active` tells whether the watcher is
    /// active) and returns whether it toggles recording.
    pub fn on_event(&mut self, ev: KeyEvent, now_ms: u64, active: bool) -> (r: bool)
        ensures
            (*final(self), r) == tap_step(*old(self), ev, now_ms, active),
    {
        match ev {
            KeyEvent::RightCommand(true) => {
                self.right_cmd_down = true;
                self.used_as_modifier = false;
                self.down_time_ms = now_ms;
                false
            },
            KeyEvent::RightCommand(false) => {
                let mut toggles = false;
                if self.right_cmd_down {
                    let since_last_ok = match self.last_toggle_ms {
                        Some(t) => now_ms.saturating_sub(t) >= 600,
                        None => true,
                    };
                    if !self.used_as_modifier && now_ms.saturating_sub(self.down_time_ms) < 2000
                        && since_last_ok && active {
                        toggles = true;
                        self.last_toggle_ms = Some(now_ms);
                    }
                    self.right_cmd_down = false;
                    self.used_as_modifier = false;
                }
                toggles
            },
            KeyEvent::KeyDown => {
                if self.right_cmd_down {
                    self.used_as_modifier = true;
                }
                false
            },
            KeyEvent::Other => false,
        }
    }
}

} // verus!
