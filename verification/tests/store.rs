use subclip::db::{
    Entry, EntryFound, FileStatus, Key, LookupOrUpdate, Metadata, SubDB,
};
use subclip::sub::{Subtitle, Timestamp};

fn key(path: &str) -> Key {
    Key { video_path: String::from(path) }
}

fn fresh_status() -> FileStatus {
    // file last changed at 1 s, entries in these tests are scanned later
    FileStatus::Present { ctime_sec: 1, ctime_nsec: 0, mtime_sec: 1, mtime_nsec: 0 }
}

fn stale_status() -> FileStatus {
    FileStatus::Present { ctime_sec: 100, ctime_nsec: 0, mtime_sec: 1, mtime_nsec: 0 }
}

fn one_cue_entry(path: &str, scan_time: i64) -> Entry {
    let cue = Subtitle {
        num: 1,
        start_time: Timestamp::new(0, 0, 5, 0),
        end_time: Timestamp::new(0, 0, 7, 0),
        text: String::from("Hello"),
    };
    let (entry, errors) = Entry::from_scan(&key(path), scan_time, vec![Ok(vec![cue])]);
    assert!(errors.is_empty());
    entry
}

#[test]
fn lookup_on_empty_store_is_not_present() {
    let db = SubDB::new(String::from("db.data"));
    assert_eq!(db.lookup(&key("/v/a.mkv"), &fresh_status()), Ok(EntryFound::No));
}

#[test]
fn lookup_finds_fresh_entry() {
    let mut db = SubDB::new(String::from("db.data"));
    let entry = one_cue_entry("/v/a.mkv", 5_000_000_000);
    db.insert_scanned(key("/v/a.mkv"), entry.clone());
    assert_eq!(db.lookup(&key("/v/a.mkv"), &fresh_status()), Ok(EntryFound::Yes(entry)));
}

#[test]
fn lookup_reports_changed_entry() {
    let mut db = SubDB::new(String::from("db.data"));
    db.insert_scanned(key("/v/a.mkv"), one_cue_entry("/v/a.mkv", 5_000_000_000));
    assert_eq!(db.lookup(&key("/v/a.mkv"), &stale_status()), Ok(EntryFound::YesButChanged));
}

#[test]
fn lookup_reports_gone_entry_without_mutating() {
    let mut db = SubDB::new(String::from("db.data"));
    db.insert_scanned(key("/v/a.mkv"), one_cue_entry("/v/a.mkv", 5_000_000_000));
    assert_eq!(db.lookup(&key("/v/a.mkv"), &FileStatus::Absent), Ok(EntryFound::YesButGone));
    // a pure lookup never removes anything
    assert_eq!(db.len(), 1);
}

#[test]
fn idempotent_fresh_lookup() {
    // the rescan is asked for exactly once; afterwards the same entry
    // comes back every time, bit for bit, with the store untouched
    let mut db = SubDB::new(String::from("db.data"));
    let k = key("/v/a.mkv");
    assert_eq!(db.lookup_or_update(&k, &fresh_status()), Ok(LookupOrUpdate::NeedsRescan));
    let entry = one_cue_entry("/v/a.mkv", 5_000_000_000);
    db.insert_scanned(k.clone(), entry.clone());

    let first = db.lookup_or_update(&k, &fresh_status());
    let second = db.lookup_or_update(&k, &fresh_status());
    assert_eq!(first, Ok(LookupOrUpdate::Fresh(entry.clone())));
    assert_eq!(second, Ok(LookupOrUpdate::Fresh(entry)));
    assert_eq!(db.len(), 1);
}

#[test]
fn stale_entry_asks_for_rescan_and_keeps_the_store() {
    let mut db = SubDB::new(String::from("db.data"));
    let k = key("/v/a.mkv");
    db.insert_scanned(k.clone(), one_cue_entry("/v/a.mkv", 5_000_000_000));
    assert_eq!(db.lookup_or_update(&k, &stale_status()), Ok(LookupOrUpdate::NeedsRescan));
    assert_eq!(db.len(), 1);
}

#[test]
fn gone_entry_pruning() {
    // deleting the file prunes the key; later lookups say not-present
    let mut db = SubDB::new(String::from("db.data"));
    let k = key("/v/a.mkv");
    db.insert_scanned(k.clone(), one_cue_entry("/v/a.mkv", 5_000_000_000));
    assert_eq!(db.lookup_or_update(&k, &FileStatus::Absent), Ok(LookupOrUpdate::Removed));
    assert_eq!(db.len(), 0);
    assert_eq!(db.lookup(&k, &fresh_status()), Ok(EntryFound::No));
    assert_eq!(db.lookup(&k, &FileStatus::Absent), Ok(EntryFound::No));
}

#[test]
fn insert_replaces_wholesale() {
    let mut db = SubDB::new(String::from("db.data"));
    let k = key("/v/a.mkv");
    db.insert_scanned(k.clone(), one_cue_entry("/v/a.mkv", 5_000_000_000));
    let newer = one_cue_entry("/v/a.mkv", 9_000_000_000);
    db.insert_scanned(k.clone(), newer.clone());
    assert_eq!(db.len(), 1);
    assert_eq!(db.lookup(&k, &fresh_status()), Ok(EntryFound::Yes(newer)));
}

#[test]
fn store_strings_pair_every_cue_with_its_key() {
    let mut db = SubDB::new(String::from("db.data"));
    db.insert_scanned(key("/v/a.mkv"), one_cue_entry("/v/a.mkv", 5_000_000_000));
    db.insert_scanned(key("/v/b.mkv"), one_cue_entry("/v/b.mkv", 5_000_000_000));
    let pairs = db.as_identifying_strings();
    assert_eq!(pairs.len(), 2);
    assert_eq!(pairs[0].0, key("/v/a.mkv"));
    assert_eq!(pairs[0].1, "Hello [00_00_05,000] (_v_a.mkv)");
    assert_eq!(pairs[1].0, key("/v/b.mkv"));
    assert_eq!(pairs[1].1, "Hello [00_00_05,000] (_v_b.mkv)");
}

#[test]
fn from_scan_keeps_successes_and_collects_failures() {
    let k = key("/v/a.mkv");
    let cue = Subtitle {
        num: 1,
        start_time: Timestamp::new(0, 0, 1, 0),
        end_time: Timestamp::new(0, 0, 2, 0),
        text: String::from("line"),
    };
    let bad = subclip::sub::ParseError { message: String::from("broken stream") };
    let (entry, errors) =
        Entry::from_scan(&k, 42, vec![Ok(vec![cue.clone()]), Err(bad), Ok(vec![])]);
    assert_eq!(errors.len(), 1);
    // stream numbers are the positions in the scan, kept for survivors
    assert_eq!(entry.sub_files().len(), 2);
    match &entry.sub_files()[0].0 {
        subclip::db::SubPath::InternalFFmpeg { stream_id } => assert_eq!(*stream_id, 0),
        other => panic!("unexpected source: {:?}", other),
    }
    match &entry.sub_files()[1].0 {
        subclip::db::SubPath::InternalFFmpeg { stream_id } => assert_eq!(*stream_id, 2),
        other => panic!("unexpected source: {:?}", other),
    }
    assert_eq!(entry.sub_files()[0].1, vec![cue]);
    assert_eq!(entry.meta().video_path(), "/v/a.mkv");
    assert_eq!(entry.meta().time(), 42);
}
