use spoko_whisper::audio::{downmix_i16, recording_outcome, startup_poll, stop_poll, StartupPoll, StopPoll};

#[test]
fn mono_is_unchanged() {
    assert_eq!(downmix_i16(&[1, -2, 3], 1), vec![1, -2, 3]);
}

#[test]
fn stereo_frames_are_averaged() {
    assert_eq!(downmix_i16(&[10, 20, -5, -6, 7, 8], 2), vec![15, -5, 7]);
}

#[test]
fn partial_last_frame_is_divided_by_channel_count() {
    assert_eq!(downmix_i16(&[9, 9, 9, 6], 3), vec![9, 2]);
}

#[test]
fn extremes_do_not_overflow() {
    assert_eq!(downmix_i16(&[i16::MIN, i16::MIN], 2), vec![i16::MIN]);
    assert_eq!(downmix_i16(&[i16::MAX, i16::MAX, i16::MAX], 3), vec![i16::MAX]);
    assert_eq!(downmix_i16(&[], 2), Vec::<i16>::new());
}

#[test]
fn startup_decisions() {
    assert!(matches!(startup_poll(true, true, None, 9), StartupPoll::Started));
    match startup_poll(false, true, None, 0) {
        StartupPoll::Failed(m) => assert_eq!(m, "Recording failed to start"),
        _ => panic!(),
    }
    match startup_poll(false, true, Some("No microphone detected".to_string()), 0) {
        StartupPoll::Failed(m) => assert_eq!(m, "No microphone detected"),
        _ => panic!(),
    }
    assert!(matches!(startup_poll(false, false, None, 3), StartupPoll::TimedOut));
    assert!(matches!(startup_poll(false, false, None, 2), StartupPoll::Wait));
}

#[test]
fn stop_decisions() {
    assert_eq!(stop_poll(true, 100), StopPoll::Stopped);
    assert_eq!(stop_poll(false, 4), StopPoll::TimedOut);
    assert_eq!(stop_poll(false, 3), StopPoll::Wait);
}

#[test]
fn recording_checks() {
    assert_eq!(recording_outcome(Some("boom".into()), true, Ok(5000)), Err("boom".to_string()));
    assert_eq!(recording_outcome(None, false, Ok(5000)), Err("Recording file was not created".to_string()));
    assert_eq!(recording_outcome(None, true, Err("Cannot read recording file: x".into())), Err("Cannot read recording file: x".to_string()));
    assert_eq!(recording_outcome(None, true, Ok(999)), Err("Recording too short or empty".to_string()));
    assert_eq!(recording_outcome(None, true, Ok(1000)), Ok(()));
}

#[test]
fn one_sample_per_frame() {
    let data: Vec<i16> = (0..11).collect();
    for ch in 1u16..=12 {
        let n = (data.len() + ch as usize - 1) / ch as usize;
        assert_eq!(downmix_i16(&data, ch).len(), n);
    }
}
