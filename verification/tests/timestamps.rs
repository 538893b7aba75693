use subclip::ffmpeg::timestamp_to_string;
use subclip::sub::Timestamp;

#[test]
fn ffmpeg_duration() {
    assert_eq!(&timestamp_to_string(Timestamp::new(1, 2, 3, 50)), "01:02:03.050");
}

#[test]
fn duration_pads_every_part() {
    assert_eq!(&timestamp_to_string(Timestamp::new(0, 0, 0, 0)), "00:00:00.000");
    assert_eq!(&timestamp_to_string(Timestamp::new(12, 34, 56, 789)), "12:34:56.789");
}

#[test]
fn new_normalizes_parts() {
    // ninety seconds fold into one minute and thirty seconds
    let t = Timestamp::new(0, 0, 90, 0);
    assert_eq!(t.get(), (0, 1, 30, 0));
    // an oversized millisecond part folds upward too
    let t = Timestamp::new(0, 0, 0, 65535);
    assert_eq!(t.get(), (0, 1, 5, 535));
}

#[test]
fn getters_match_get() {
    let t = Timestamp::new(4, 5, 6, 7);
    assert_eq!(t.get(), (4, 5, 6, 7));
    assert_eq!(t.get_hours(), 4);
    assert_eq!(t.get_minutes(), 5);
    assert_eq!(t.get_seconds(), 6);
    assert_eq!(t.get_milliseconds(), 7);
}

#[test]
fn total_millis_is_the_sum() {
    let t = Timestamp::new(1, 2, 3, 50);
    assert_eq!(t.total_millis(), 3600000 + 2 * 60000 + 3 * 1000 + 50);
}

#[test]
fn from_total_millis_decomposes() {
    let t = Timestamp::from_total_millis(2 * 3600000 + 30 * 60000 + 15 * 1000 + 250);
    assert_eq!(t.get(), (2, 30, 15, 250));
}
