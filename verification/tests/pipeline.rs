use subclip::db::{Entry, FileStatus, Key, LookupOrUpdate, SubDB};
use subclip::ffmpeg::{prepare_batch, EncodingProfile};
use subclip::select::correlate;
use subclip::sub::{parse_subtitles, Subtitle, SubtitleStringFormatOptions, Timestamp};
use subclip::util::escape_for_unix_filename;

fn fresh_status() -> FileStatus {
    FileStatus::Present { ctime_sec: 1, ctime_nsec: 0, mtime_sec: 1, mtime_nsec: 0 }
}

#[test]
fn parse_one_cue() {
    let cues = parse_subtitles("1\n00:00:05,000 --> 00:00:07,000\nHello\n\n").unwrap();
    assert_eq!(cues.len(), 1);
    assert_eq!(cues[0].num, 1);
    assert_eq!(cues[0].start_time, Timestamp::new(0, 0, 5, 0));
    assert_eq!(cues[0].end_time, Timestamp::new(0, 0, 7, 0));
    assert_eq!(cues[0].text, "Hello");
}

#[test]
fn parse_several_cues_in_order() {
    let text = "1\n00:00:00,000 --> 00:00:02,400\nHello\n\n\
                2\n00:00:03,000 --> 00:00:05,000\nWorld\n\n";
    let cues = parse_subtitles(text).unwrap();
    assert_eq!(cues.len(), 2);
    assert_eq!(cues[0].text, "Hello");
    assert_eq!(cues[1].text, "World");
    assert_eq!(cues[1].start_time, Timestamp::new(0, 0, 3, 0));
}

#[test]
fn parse_rejects_malformed_text() {
    assert!(parse_subtitles("1\nnot a timestamp\nHello\n\n").is_err());
}

#[test]
fn identifying_string_shape() {
    let cue = Subtitle {
        num: 1,
        start_time: Timestamp::new(0, 0, 5, 0),
        end_time: Timestamp::new(0, 0, 7, 0),
        text: String::from("Hello"),
    };
    let s = cue.as_identifying_string("/v/movie.mkv", SubtitleStringFormatOptions::Full);
    assert_eq!(s, "Hello [00_00_05,000] (_v_movie.mkv)");
}

#[test]
fn identifying_string_truncates_for_filenames() {
    let long_text: String = ["x"; 100].concat();
    let cue = Subtitle {
        num: 1,
        start_time: Timestamp::new(0, 0, 5, 0),
        end_time: Timestamp::new(0, 0, 7, 0),
        text: long_text.clone(),
    };
    let full = cue.as_identifying_string("/v/m.mkv", SubtitleStringFormatOptions::Full);
    let name = cue.as_identifying_string("/v/m.mkv", SubtitleStringFormatOptions::Filename);
    assert!(full.contains(&long_text));
    assert!(name.starts_with(&["x"; 64].concat()));
    assert!(!name.contains(&["x"; 65].concat()));
}

#[test]
fn escape_replaces_unsafe_characters() {
    assert_eq!(escape_for_unix_filename("a/b:c*d?e|f'g\"h"), "a_b_c_d_e_f_g_h");
    assert_eq!(escape_for_unix_filename("-leading"), "_leading");
    assert_eq!(escape_for_unix_filename("not-leading"), "not-leading");
    assert_eq!(escape_for_unix_filename("a\r\nb\nc\rd"), "a___b___c___d");
    assert_eq!(escape_for_unix_filename(""), "");
}

#[test]
fn entry_strings_cover_every_cue() {
    let k = Key { video_path: String::from("/v/movie.mkv") };
    let cues = parse_subtitles(
        "1\n00:00:05,000 --> 00:00:07,000\nHello\n\n2\n00:00:08,000 --> 00:00:09,000\nWorld\n\n",
    )
    .unwrap();
    let (entry, _) = Entry::from_scan(&k, 5_000_000_000, vec![Ok(cues)]);
    let strings = entry.as_identifying_strings();
    assert_eq!(strings.len(), 2);
    assert_eq!(strings[0], "Hello [00_00_05,000] (_v_movie.mkv)");
    assert_eq!(strings[1], "World [00_00_08,000] (_v_movie.mkv)");
}

#[test]
fn scenario_hello_clip() {
    // one video, one internal subtitle stream, one cue
    let k = Key { video_path: String::from("/v/movie.mkv") };
    let mut db = SubDB::new(String::from("db.data"));

    // first scan: lookup-or-rescan asks for the scan, the scan result is
    // installed
    assert_eq!(db.lookup_or_update(&k, &fresh_status()), Ok(LookupOrUpdate::NeedsRescan));
    let cues = parse_subtitles("1\n00:00:05,000 --> 00:00:07,000\nHello\n\n").unwrap();
    let (entry, errors) = Entry::from_scan(&k, 5_000_000_000, vec![Ok(cues)]);
    assert!(errors.is_empty());
    db.insert_scanned(k.clone(), entry);
    assert_eq!(db.len(), 1);

    // derive the selection strings and pick the one cue
    let search_map = db.as_identifying_strings();
    assert_eq!(search_map.len(), 1);
    let chosen = vec![search_map[0].1.clone()];
    let resolved = correlate(&search_map, &chosen).unwrap();
    assert_eq!(resolved.len(), 1);

    // the batch produces exactly one invocation, with an .mkv output and
    // no error
    let statuses = vec![fresh_status()];
    let results = prepare_batch(&db, &resolved, &statuses, EncodingProfile::AV1, "clips", false);
    assert_eq!(results.len(), 1);
    let job = results[0].as_ref().unwrap();
    assert!(job.outfile.ends_with(".mkv"));

    // re-running the whole pipeline without touching the file is a cache
    // hit: no rescan is asked for
    match db.lookup_or_update(&k, &fresh_status()) {
        Ok(LookupOrUpdate::Fresh(e)) => {
            assert_eq!(e.meta().video_path(), "/v/movie.mkv");
        },
        other => panic!("expected a cache hit, got {:?}", other),
    }
}
