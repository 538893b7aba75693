use subclip::db::{
    relevant_timestamp, Entry, EntryChanged, FileStatus, Key, Metadata, TimestampError,
};

fn entry_scanned_at(time: i64) -> Entry {
    Entry {
        meta: Metadata { video_path: String::from("/videos/video.mp4"), time },
        sub_files: Vec::new(),
    }
}

#[test]
fn absent_file_is_gone() {
    let entry = entry_scanned_at(1_000_000_000);
    assert_eq!(entry.has_changed(&FileStatus::Absent), Ok(EntryChanged::Gone));
}

#[test]
fn gone_wins_over_any_timestamp() {
    // the spec ignores timestamps entirely once the file is absent
    let entry = entry_scanned_at(i64::MAX);
    assert_eq!(entry.has_changed(&FileStatus::Absent), Ok(EntryChanged::Gone));
    let entry = entry_scanned_at(1);
    assert_eq!(entry.has_changed(&FileStatus::Absent), Ok(EntryChanged::Gone));
}

#[test]
fn older_file_is_fresh() {
    // scanned at t = 5 s; file last changed at 2 s
    let entry = entry_scanned_at(5_000_000_000);
    let st = FileStatus::Present { ctime_sec: 2, ctime_nsec: 0, mtime_sec: 1, mtime_nsec: 0 };
    assert_eq!(entry.has_changed(&st), Ok(EntryChanged::No));
}

#[test]
fn newer_file_is_stale() {
    // scanned at t = 5 s; file changed at 7 s
    let entry = entry_scanned_at(5_000_000_000);
    let st = FileStatus::Present { ctime_sec: 7, ctime_nsec: 0, mtime_sec: 1, mtime_nsec: 0 };
    assert_eq!(entry.has_changed(&st), Ok(EntryChanged::Yes));
}

#[test]
fn equal_timestamp_counts_as_changed() {
    // the comparison is deliberately >=: an exact tie re-scans
    let entry = entry_scanned_at(5_000_000_000);
    let st = FileStatus::Present { ctime_sec: 5, ctime_nsec: 0, mtime_sec: 1, mtime_nsec: 0 };
    assert_eq!(entry.has_changed(&st), Ok(EntryChanged::Yes));
}

#[test]
fn later_of_ctime_and_mtime_decides() {
    assert_eq!(relevant_timestamp(2, 500, 9, 1), Ok(9_000_000_001));
    assert_eq!(relevant_timestamp(9, 1, 2, 500), Ok(9_000_000_001));
}

#[test]
fn mtime_alone_can_make_an_entry_stale() {
    // ctime old, mtime new: still stale
    let entry = entry_scanned_at(5_000_000_000);
    let st = FileStatus::Present { ctime_sec: 1, ctime_nsec: 0, mtime_sec: 6, mtime_nsec: 0 };
    assert_eq!(entry.has_changed(&st), Ok(EntryChanged::Yes));
}

#[test]
fn nanosecond_overflow_is_an_error() {
    let entry = entry_scanned_at(1);
    let st = FileStatus::Present {
        ctime_sec: i64::MAX,
        ctime_nsec: 0,
        mtime_sec: 1,
        mtime_nsec: 0,
    };
    assert_eq!(entry.has_changed(&st), Err(TimestampError::NanosOutOfRange));
}

#[test]
fn non_positive_timestamp_is_an_error() {
    let entry = entry_scanned_at(1);
    let st = FileStatus::Present { ctime_sec: 0, ctime_nsec: 0, mtime_sec: 1, mtime_nsec: 0 };
    assert_eq!(entry.has_changed(&st), Err(TimestampError::NonPositive));
    let st = FileStatus::Present { ctime_sec: 1, ctime_nsec: 0, mtime_sec: -3, mtime_nsec: 0 };
    assert_eq!(entry.has_changed(&st), Err(TimestampError::NonPositive));
}

#[allow(non_snake_case)]
#[test]
fn has_changed__no_longer_exists() {
    // the video path does not exist any more
    let entry = Entry {
        meta: Metadata { video_path: String::from("video.mp4"), time: 1_700_000_000_000_000_000 },
        sub_files: Vec::new(),
    };
    assert_eq!(entry.has_changed(&FileStatus::Absent), Ok(EntryChanged::Gone));
}

#[allow(non_snake_case)]
#[test]
fn has_changed__no_longer_exists_not_a_file() {
    // the path exists but is a directory, which the observer reports as
    // absent too
    let entry = Entry {
        meta: Metadata { video_path: String::from("video.mp4"), time: 1_700_000_000_000_000_000 },
        sub_files: Vec::new(),
    };
    assert_eq!(entry.has_changed(&FileStatus::Absent), Ok(EntryChanged::Gone));
}

#[allow(non_snake_case)]
#[test]
fn has_changed__yes() {
    // scanned first, file rewritten afterwards
    let scan_time: i64 = 1_700_000_000_000_000_000;
    let entry = Entry {
        meta: Metadata { video_path: String::from("video.mp4"), time: scan_time },
        sub_files: Vec::new(),
    };
    let st = FileStatus::Present {
        ctime_sec: 1_700_000_100,
        ctime_nsec: 0,
        mtime_sec: 1_700_000_100,
        mtime_nsec: 0,
    };
    assert_eq!(entry.has_changed(&st), Ok(EntryChanged::Yes));
}

#[allow(non_snake_case)]
#[test]
fn has_changed__no() {
    // the recorded scan time lies a day after the file's last change
    let scan_time: i64 = 1_700_086_400_000_000_000;
    let entry = Entry {
        meta: Metadata { video_path: String::from("video.mp4"), time: scan_time },
        sub_files: Vec::new(),
    };
    let st = FileStatus::Present {
        ctime_sec: 1_700_000_000,
        ctime_nsec: 0,
        mtime_sec: 1_700_000_000,
        mtime_nsec: 0,
    };
    assert_eq!(entry.has_changed(&st), Ok(EntryChanged::No));
}

#[test]
fn key_matches_is_structural() {
    let a = Key { video_path: String::from("/v/a.mkv") };
    let b = Key { video_path: String::from("/v/a.mkv") };
    let c = Key { video_path: String::from("/v/c.mkv") };
    assert!(a.matches(&b));
    assert!(!a.matches(&c));
}
