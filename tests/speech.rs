use assistant_rs::speech::TranscriptTracker;

#[test]
fn tracker_follows_transcript_changes() {
    let mut t = TranscriptTracker::new(1000);
    assert!(!t.observe(&[0; 50], String::new()));
    assert_eq!(50, t.num_samples());
    assert!(t.observe(&[1; 10], "hel".to_owned()));
    assert_eq!("hel", t.current_text());
    assert_eq!(0, t.nanos_since_change());
    assert!(!t.observe(&[2; 100], "hel".to_owned()));
    assert_eq!(100_000_000, t.nanos_since_change());
    assert!(!t.has_finished());
    assert!(!t.observe(&[3; 1], "hel".to_owned()));
    assert!(t.has_finished());
    assert_eq!(161, t.num_samples());
    let (text, audio) = t.finish();
    assert_eq!("hel", text);
    assert_eq!(111, audio.len());
}

#[test]
fn silence_before_speech_does_not_finish() {
    let mut t = TranscriptTracker::new(16000);
    t.observe(&[0; 16000], String::new());
    assert!(!t.has_finished());
    let (text, audio) = t.finish();
    assert_eq!("", text);
    assert!(audio.is_empty());
}
