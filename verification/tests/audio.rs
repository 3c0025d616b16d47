use clonehero_maker::audio::frames_for_length;

#[test]
fn declared_frames_win_when_nonzero() {
    assert_eq!(frames_for_length(Some(44_100), 10), 44_100);
    assert_eq!(frames_for_length(Some(0), 10), 10);
    assert_eq!(frames_for_length(None, 10), 10);
}

