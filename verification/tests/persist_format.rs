use subclip::db::{Entry, Key, Metadata, SubDB, SubPath};
use subclip::persist::LoadError;
use subclip::sub::{Subtitle, Timestamp};

fn key(path: &str) -> Key {
    Key { video_path: String::from(path) }
}

fn sample_store() -> SubDB {
    let mut db = SubDB::new(String::from("db.data"));
    let cue_a = Subtitle {
        num: 1,
        start_time: Timestamp::new(0, 0, 5, 0),
        end_time: Timestamp::new(0, 0, 7, 0),
        text: String::from("Hello\nWorld"),
    };
    let cue_b = Subtitle {
        num: 2,
        start_time: Timestamp::new(1, 2, 3, 50),
        end_time: Timestamp::new(1, 2, 5, 0),
        text: String::from("Zweite Zeile"),
    };
    let entry_a = Entry {
        meta: Metadata { video_path: String::from("/v/a.mkv"), time: 5_000_000_000 },
        sub_files: vec![
            (SubPath::InternalFFmpeg { stream_id: 0 }, vec![cue_a, cue_b]),
            (SubPath::External { path: String::from("/v/a.srt") }, vec![]),
        ],
    };
    let entry_b = Entry {
        meta: Metadata { video_path: String::from("/v/b.mp4"), time: -17 },
        sub_files: vec![],
    };
    db.insert_scanned(key("/v/a.mkv"), entry_a);
    db.insert_scanned(key("/v/b.mp4"), entry_b);
    db
}

#[test]
fn round_trip() {
    // persisting and reloading yields the same keys, the same entry
    // contents, the same sources and cues, in the same order
    let db = sample_store();
    let encoded = db.save();
    let reloaded = SubDB::load(String::from("db.data"), Some(&encoded)).unwrap();
    assert_eq!(reloaded.entries(), db.entries());
    assert_eq!(reloaded.db_path(), db.db_path());
}

#[test]
fn round_trip_of_empty_store() {
    let db = SubDB::new(String::from("db.data"));
    let encoded = db.save();
    let reloaded = SubDB::load(String::from("db.data"), Some(&encoded)).unwrap();
    assert_eq!(reloaded.len(), 0);
}

#[test]
fn missing_file_loads_empty() {
    let db = SubDB::load(String::from("db.data"), None).unwrap();
    assert_eq!(db.len(), 0);
    assert_eq!(db.db_path(), "db.data");
}

#[test]
fn wrong_schema_tag_is_fatal() {
    // replace the three tag characters "0.2" with another version
    let db = sample_store();
    let mut encoded = db.save();
    // the tag's characters sit right after its twenty-digit length
    encoded[20] = '0';
    encoded[21] = '.';
    encoded[22] = '1';
    assert_eq!(
        SubDB::load(String::from("db.data"), Some(&encoded)),
        Err(LoadError::UnsupportedSchema)
    );
}

#[test]
fn truncated_input_is_malformed() {
    let db = sample_store();
    let mut encoded = db.save();
    encoded.truncate(encoded.len() - 1);
    assert_eq!(SubDB::load(String::from("db.data"), Some(&encoded)), Err(LoadError::Malformed));
}

#[test]
fn trailing_garbage_is_malformed() {
    let db = sample_store();
    let mut encoded = db.save();
    encoded.push('x');
    assert_eq!(SubDB::load(String::from("db.data"), Some(&encoded)), Err(LoadError::Malformed));
}

#[test]
fn empty_input_is_malformed() {
    let encoded: Vec<char> = Vec::new();
    assert_eq!(SubDB::load(String::from("db.data"), Some(&encoded)), Err(LoadError::Malformed));
}
