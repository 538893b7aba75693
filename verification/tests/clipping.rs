use subclip::db::{Entry, FileStatus, Key, SubDB};
use subclip::ffmpeg::{
    clip, is_video_ext, prepare_batch, prepare_clip, settings_for, settings_to_args,
    BatchItemError, ClipError, EncodingProfile,
};
use subclip::sub::{Subtitle, SubtitleStringFormatOptions, Timestamp};

fn key(path: &str) -> Key {
    Key { video_path: String::from(path) }
}

fn fresh_status() -> FileStatus {
    FileStatus::Present { ctime_sec: 1, ctime_nsec: 0, mtime_sec: 1, mtime_nsec: 0 }
}

fn stale_status() -> FileStatus {
    FileStatus::Present { ctime_sec: 100, ctime_nsec: 0, mtime_sec: 1, mtime_nsec: 0 }
}

fn hello_cue() -> Subtitle {
    Subtitle {
        num: 1,
        start_time: Timestamp::new(0, 0, 5, 0),
        end_time: Timestamp::new(0, 0, 7, 0),
        text: String::from("Hello"),
    }
}

fn store_with_hello() -> (SubDB, Key, String) {
    let mut db = SubDB::new(String::from("db.data"));
    let k = key("/v/movie.mkv");
    let (entry, errors) = Entry::from_scan(&k, 5_000_000_000, vec![Ok(vec![hello_cue()])]);
    assert!(errors.is_empty());
    let line =
        hello_cue().as_identifying_string("/v/movie.mkv", SubtitleStringFormatOptions::Full);
    db.insert_scanned(k.clone(), entry);
    (db, k, line)
}

#[test]
fn profile_names() {
    assert_eq!(EncodingProfile::AV1.name(), "AV1");
    assert_eq!(EncodingProfile::FLAC.name(), "FLAC");
}

#[test]
fn profile_settings() {
    let av1 = settings_for(EncodingProfile::AV1);
    assert_eq!(av1.ext, "mkv");
    assert_eq!(av1.params.len(), 7);
    assert_eq!(av1.params[0], ("-c:v", "libsvtav1"));
    let flac = settings_for(EncodingProfile::FLAC);
    assert_eq!(flac.ext, "flac");
    assert_eq!(
        flac.params,
        vec![("-c:v", "none"), ("-c:a", "flac"), ("-ac", "2")]
    );
}

#[test]
fn settings_flatten_in_order() {
    let flac = settings_for(EncodingProfile::FLAC);
    assert_eq!(
        settings_to_args(&flac),
        vec!["-c:v", "none", "-c:a", "flac", "-ac", "2"]
    );
}

#[test]
fn clip_builds_the_exact_invocation() {
    let job = clip(
        "/v/movie.mkv",
        "clips/out",
        Timestamp::new(0, 0, 5, 0),
        Timestamp::new(0, 0, 7, 0),
        EncodingProfile::FLAC,
    )
    .unwrap();
    assert_eq!(job.outfile, "clips/out.flac");
    assert_eq!(
        job.args,
        vec![
            String::from("-ss"),
            String::from("00:00:05.000"),
            String::from("-i"),
            String::from("/v/movie.mkv"),
            String::from("-t"),
            String::from("00:00:02.000"),
            String::from("-c:v"),
            String::from("none"),
            String::from("-c:a"),
            String::from("flac"),
            String::from("-ac"),
            String::from("2"),
            String::from("clips/out.flac"),
        ]
    );
}

#[test]
fn empty_range_is_not_cuttable() {
    let r = clip(
        "/v/movie.mkv",
        "clips/out",
        Timestamp::new(0, 0, 7, 0),
        Timestamp::new(0, 0, 7, 0),
        EncodingProfile::AV1,
    );
    assert_eq!(r, Err(ClipError::EmptyRange));
    let r = clip(
        "/v/movie.mkv",
        "clips/out",
        Timestamp::new(0, 0, 7, 0),
        Timestamp::new(0, 0, 5, 0),
        EncodingProfile::AV1,
    );
    assert_eq!(r, Err(ClipError::EmptyRange));
}

#[test]
fn oversized_duration_is_an_error() {
    // a non-normalized end timestamp puts the duration just over the
    // representable 255 h 59 m 59 s 999 ms span
    let start = Timestamp::new(0, 0, 0, 0);
    let end = Timestamp { hours: 255, minutes: 59, seconds: 59, milliseconds: 65535 };
    let r = clip("/v/movie.mkv", "clips/out", start, end, EncodingProfile::AV1);
    assert_eq!(r, Err(ClipError::DurationOverflow));
}

#[test]
fn prepare_validates_and_builds() {
    let (db, k, line) = store_with_hello();
    let job =
        prepare_clip(&db, &k, &line, &fresh_status(), EncodingProfile::AV1, "clips", false)
            .unwrap();
    assert_eq!(job.outfile, "clips/Hello [00_00_05,000] (_v_movie.mkv).mkv");
    assert_eq!(job.args[0], "-ss");
    assert_eq!(job.args[1], "00:00:05.000");
    assert_eq!(job.args[5], "00:00:02.000");
    assert_eq!(job.args[job.args.len() - 1], job.outfile);
}

#[test]
fn prepare_can_namespace_by_profile() {
    let (db, k, line) = store_with_hello();
    let job =
        prepare_clip(&db, &k, &line, &fresh_status(), EncodingProfile::AV1, "clips", true)
            .unwrap();
    assert_eq!(job.outfile, "clips/AV1/Hello [00_00_05,000] (_v_movie.mkv).mkv");
}

#[test]
fn prepare_rejects_changed_and_gone_files() {
    let (db, k, line) = store_with_hello();
    assert_eq!(
        prepare_clip(&db, &k, &line, &stale_status(), EncodingProfile::AV1, "clips", false),
        Err(BatchItemError::ChangedUnderUs)
    );
    assert_eq!(
        prepare_clip(&db, &k, &line, &FileStatus::Absent, EncodingProfile::AV1, "clips", false),
        Err(BatchItemError::ChangedUnderUs)
    );
}

#[test]
fn prepare_flags_invariant_breaks() {
    let (db, k, line) = store_with_hello();
    assert_eq!(
        prepare_clip(
            &db,
            &key("/v/other.mkv"),
            &line,
            &fresh_status(),
            EncodingProfile::AV1,
            "clips",
            false
        ),
        Err(BatchItemError::MissingKey)
    );
    assert_eq!(
        prepare_clip(
            &db,
            &k,
            &String::from("no such line"),
            &fresh_status(),
            EncodingProfile::AV1,
            "clips",
            false
        ),
        Err(BatchItemError::MissingCue)
    );
}

#[test]
fn prepare_surfaces_timestamp_errors() {
    let (db, k, line) = store_with_hello();
    let bad = FileStatus::Present { ctime_sec: 0, ctime_nsec: 0, mtime_sec: 1, mtime_nsec: 0 };
    assert_eq!(
        prepare_clip(&db, &k, &line, &bad, EncodingProfile::AV1, "clips", false),
        Err(BatchItemError::Time(subclip::db::TimestampError::NonPositive))
    );
}

#[test]
fn prepare_rejects_uncuttable_cue() {
    // a cue that ends where it starts is not cuttable
    let mut db = SubDB::new(String::from("db.data"));
    let k = key("/v/movie.mkv");
    let cue = Subtitle {
        num: 1,
        start_time: Timestamp::new(0, 0, 5, 0),
        end_time: Timestamp::new(0, 0, 5, 0),
        text: String::from("flat"),
    };
    let line = cue.as_identifying_string("/v/movie.mkv", SubtitleStringFormatOptions::Full);
    let (entry, _) = Entry::from_scan(&k, 5_000_000_000, vec![Ok(vec![cue])]);
    db.insert_scanned(k.clone(), entry);
    assert_eq!(
        prepare_clip(&db, &k, &line, &fresh_status(), EncodingProfile::AV1, "clips", false),
        Err(BatchItemError::Clip(ClipError::EmptyRange))
    );
}

#[test]
fn partial_failure_isolation() {
    // three selections of the same cue; the middle one sees a changed
    // file and fails alone, its siblings still get their invocations
    let (db, k, line) = store_with_hello();
    let selections = vec![
        (k.clone(), line.clone()),
        (k.clone(), line.clone()),
        (k.clone(), line.clone()),
    ];
    let statuses = vec![fresh_status(), stale_status(), fresh_status()];
    let results =
        prepare_batch(&db, &selections, &statuses, EncodingProfile::AV1, "clips", false);
    assert_eq!(results.len(), 3);
    assert!(results[0].is_ok());
    assert_eq!(results[1], Err(BatchItemError::ChangedUnderUs));
    assert!(results[2].is_ok());
    assert_eq!(results[0], results[2]);
}

#[test]
fn video_extensions() {
    assert!(is_video_ext("mkv"));
    assert!(is_video_ext("mp4"));
    assert!(is_video_ext("webm"));
    assert!(!is_video_ext("srt"));
    assert!(!is_video_ext(""));
}
