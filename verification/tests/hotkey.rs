use spoko_whisper::hotkey::{classify_event, is_right_command, KeyEvent, TapState, WatcherGate};

#[test]
fn watcher_grace_period() {
    let mut g = WatcherGate::new();
    assert!(g.is_active(5_000));
    g.set_paused(true, 5_000);
    assert!(!g.is_active(100_000));
    g.set_paused(false, 10_000);
    assert!(!g.is_active(10_999));
    assert!(g.is_active(11_000));
    assert!(!g.is_active(9_000));
}

#[test]
fn classify_events() {
    assert_eq!(classify_event(12, 54, 1 << 20), KeyEvent::RightCommand(true));
    assert_eq!(classify_event(12, 54, 0), KeyEvent::RightCommand(false));
    assert_eq!(classify_event(12, 55, 1 << 20), KeyEvent::Other);
    assert_eq!(classify_event(10, 0, 0), KeyEvent::KeyDown);
    assert_eq!(classify_event(1, 54, 0), KeyEvent::Other);
}

#[test]
fn short_tap_toggles() {
    let mut s = TapState::new();
    assert!(!s.on_event(KeyEvent::RightCommand(true), 1_000, true));
    assert!(s.on_event(KeyEvent::RightCommand(false), 1_200, true));
    assert_eq!(s.last_toggle_ms, Some(1_200));
}

#[test]
fn long_press_modifier_use_and_inactive_do_not_toggle() {
    let mut s = TapState::new();
    s.on_event(KeyEvent::RightCommand(true), 0, true);
    assert!(!s.on_event(KeyEvent::RightCommand(false), 2_000, true));
    s.on_event(KeyEvent::RightCommand(true), 3_000, true);
    s.on_event(KeyEvent::KeyDown, 3_100, true);
    assert!(!s.on_event(KeyEvent::RightCommand(false), 3_200, true));
    s.on_event(KeyEvent::RightCommand(true), 4_000, true);
    assert!(!s.on_event(KeyEvent::RightCommand(false), 4_100, false));
    assert_eq!(s.last_toggle_ms, None);
}

#[test]
fn taps_are_debounced() {
    let mut s = TapState::new();
    s.on_event(KeyEvent::RightCommand(true), 0, true);
    assert!(s.on_event(KeyEvent::RightCommand(false), 100, true));
    s.on_event(KeyEvent::RightCommand(true), 300, true);
    assert!(!s.on_event(KeyEvent::RightCommand(false), 699, true));
    s.on_event(KeyEvent::RightCommand(true), 700, true);
    assert!(s.on_event(KeyEvent::RightCommand(false), 800, true));
}

#[test]
fn release_without_press_does_nothing() {
    let mut s = TapState::new();
    assert!(!s.on_event(KeyEvent::RightCommand(false), 100, true));
}

#[test]
fn right_command_setting() {
    assert!(is_right_command("RightCommand"));
    assert!(!is_right_command("F5"));
    assert!(!is_right_command("rightcommand"));
    assert!(!is_right_command(""));
}

#[test]
fn toggles_once_per_qualifying_tap_over_a_run() {
    // (event, time, active, qualifies)
    let run = [
        (KeyEvent::RightCommand(true), 0, true, false),
        (KeyEvent::RightCommand(false), 100, true, true),
        (KeyEvent::RightCommand(true), 200, true, false),
        (KeyEvent::RightCommand(false), 300, true, false), // too soon
        (KeyEvent::RightCommand(true), 1_000, true, false),
        (KeyEvent::KeyDown, 1_050, true, false),
        (KeyEvent::RightCommand(false), 1_100, true, false), // used as modifier
        (KeyEvent::Other, 1_200, true, false),
        (KeyEvent::RightCommand(false), 1_300, true, false), // not pressed
        (KeyEvent::RightCommand(true), 2_000, true, false),
        (KeyEvent::RightCommand(false), 4_500, true, false), // held too long
        (KeyEvent::RightCommand(true), 5_000, true, false),
        (KeyEvent::RightCommand(false), 5_100, false, false), // inactive
        (KeyEvent::RightCommand(true), 6_000, true, false),
        (KeyEvent::RightCommand(false), 6_100, true, true),
    ];
    let mut s = TapState::new();
    let mut sent = 0;
    for (ev, t, active, qualifies) in run {
        let toggled = s.on_event(ev, t, active);
        assert_eq!(toggled, qualifies, "at {}", t);
        if toggled {
            sent += 1;
        }
    }
    assert_eq!(sent, 2);
}
