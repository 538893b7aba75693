//! Encoding profiles and clip preparation.
//!
//! A clip request is prepared entirely in verified code: the entry is
//! re-validated against the file state the caller observed, the chosen cue
//! is located again by its identifying string, the output path is derived,
//! and the exact argument list for the external media tool is built. Only
//! the process invocation itself is left to the caller.

use vstd::prelude::*;

use crate::db::{
    spec_lookup, EntryFound, EntryFoundView, FileStatus, Key, SubDB, SubPathView, TimestampError,
};
use crate::sub::{
    spec_display, spec_from_millis, spec_identifying_string, CueView, Subtitle,
    SubtitleStringFormatOptions, Timestamp,
};
use crate::util;

verus! {

/// The file extensions treated as video files during scanning.
pub open spec fn spec_video_exts() -> Seq<Seq<char>> {
    seq!["mp4"@, "mkv"@, "m4v"@, "wmv"@, "avi"@, "flv"@, "webm"@]
}

/// Whether an extension (without the dot) is one of the video extensions.
pub fn is_video_ext(ext: &str) -> (r: bool)
    ensures
        r == spec_video_exts().contains(ext@),
{
    let exts: [&str; 7] = ["mp4", "mkv", "m4v", "wmv", "avi", "flv", "webm"];
    let mut i: usize = 0;
    while i < 7
        invariant
            i <= 7,
            exts@.map_values(|s: &str| s@) =~= spec_video_exts(),
            forall|j: int| 0 <= j < i ==> spec_video_exts()[j] != ext@,
        decreases 7 - i,
    {
        if util::str_eq(exts[i], ext) {
            assert(spec_video_exts()[i as int] == ext@);
            return true;
        }
        i = i + 1;
    }
    assert forall|j: int| 0 <= j < spec_video_exts().len() implies spec_video_exts()[j]
        != ext@ by {}
    false
}

/// A named, fixed encoding parameter set.
#[derive(Clone, Copy, Debug, PartialEq, Eq, Hash, Structural)]
pub enum EncodingProfile {
    /// Video and audio: AV1 video with Opus audio, in a Matroska container.
    AV1,
    /// Audio only: FLAC.
    FLAC,
}

/// The profile's display name (its variant name).
pub open spec fn spec_profile_name(p: EncodingProfile) -> Seq<char> {
    if p is AV1 {
        "AV1"@
    } else {
        "FLAC"@
    }
}

impl EncodingProfile {
    /// The profile's display name.
    pub fn name(&self) -> (r: &'static str)
        ensures
            r@ == spec_profile_name(*self),
    {
        match self {
            EncodingProfile::AV1 => "AV1",
            EncodingProfile::FLAC => "FLAC",
        }
    }
}

/// The concrete settings a profile stands for: the output container
/// extension and the media tool's parameter pairs.
#[derive(Debug, PartialEq, Eq, Hash)]
pub struct EncodingSettings {
    /// Output file extension, without the dot.
    pub ext: &'static str,
    /// Parameter pairs, in order; an empty value means the flag stands
    /// alone.
    pub params: Vec<(&'static str, &'static str)>,
}

/// The values of a parameter list.
pub open spec fn params_view(s: Seq<(&'static str, &'static str)>) -> Seq<(Seq<char>, Seq<char>)> {
    s.map_values(|p: (&'static str, &'static str)| (p.0@, p.1@))
}

/// The output extension of a profile.
pub open spec fn spec_profile_ext(p: EncodingProfile) -> Seq<char> {
    if p is AV1 {
        "mkv"@
    } else {
        "flac"@
    }
}

/// The parameter pairs of a profile.
pub open spec fn spec_profile_params(p: EncodingProfile) -> Seq<(Seq<char>, Seq<char>)> {
    if p is AV1 {
        seq![
            ("-c:v"@, "libsvtav1"@),
            ("-crf:v"@, "10"@),
            ("-preset:v"@, "6"@),
            (
                "-svtav1-params"@,
                "tune=0:film-grain=50:film-grain-denoise=0:enable-variance-boost=1"@,
            ),
            ("-c:a"@, "libopus"@),
            ("-b:a"@, "92k"@),
            ("-ac"@, "2"@),
        ]
    } else {
        seq![("-c:v"@, "none"@), ("-c:a"@, "flac"@), ("-ac"@, "2"@)]
    }
}

/// The settings a profile stands for.
pub fn settings_for(profile: EncodingProfile) -> (r: EncodingSettings)
    ensures
        r.ext@ == spec_profile_ext(profile),
        params_view(r.params@) == spec_profile_params(profile),
{
    match profile {
        EncodingProfile::AV1 => {
            let mut params: Vec<(&'static str, &'static str)> = Vec::new();
            params.push(("-c:v", "libsvtav1"));
            params.push(("-crf:v", "10"));
            params.push(("-preset:v", "6"));
            params.push((
                "-svtav1-params",
                "tune=0:film-grain=50:film-grain-denoise=0:enable-variance-boost=1",
            ));
            params.push(("-c:a", "libopus"));
            params.push(("-b:a", "92k"));
            params.push(("-ac", "2"));
            let r = EncodingSettings { ext: "mkv", params };
            assert(params_view(r.params@) =~= spec_profile_params(profile));
            r
        },
        EncodingProfile::FLAC => {
            let mut params: Vec<(&'static str, &'static str)> = Vec::new();
            params.push(("-c:v", "none"));
            params.push(("-c:a", "flac"));
            params.push(("-ac", "2"));
            let r = EncodingSettings { ext: "flac", params };
            assert(params_view(r.params@) =~= spec_profile_params(profile));
            r
        },
    }
}

/// A parameter list flattened to single arguments: each name, followed by
/// its value when the value is not empty.
pub open spec fn spec_settings_args(params: Seq<(Seq<char>, Seq<char>)>) -> Seq<Seq<char>>
    decreases params.len(),
{
    if params.len() == 0 {
        Seq::empty()
    } else {
        (if params[0].1.len() == 0 {
            seq![params[0].0]
        } else {
            seq![params[0].0, params[0].1]
        }) + spec_settings_args(params.skip(1))
    }
}

/// Flattens the parameter pairs into the media tool's argument order.
pub fn settings_to_args(settings: &EncodingSettings) -> (r: Vec<&'static str>)
    ensures
        r.deep_view() == spec_settings_args(params_view(settings.params@)),
{
    let ghost all = params_view(settings.params@);
    let mut r: Vec<&'static str> = Vec::new();
    let mut i: usize = 0;
    assert(all.skip(0) =~= all);
    assert(r.deep_view() =~= Seq::<Seq<char>>::empty());
    while i < settings.params.len()
        invariant
            i <= settings.params@.len(),
            all == params_view(settings.params@),
            settings.params@.len() == all.len(),
            spec_settings_args(all) == r.deep_view() + spec_settings_args(all.skip(i as int)),
        decreases settings.params@.len() - i,
    {
        let ghost rest = all.skip(i as int);
        assert(rest[0] == all[i as int]);
        assert(settings.params@[i as int].0@ == all[i as int].0);
        assert(settings.params@[i as int].1@ == all[i as int].1);
        let pair = settings.params[i];
        r.push(pair.0);
        if !pair.1.is_empty() {
            r.push(pair.1);
        }
        assert(rest.skip(1) =~= all.skip(i + 1 as int));
        assert(spec_settings_args(all) =~= r.deep_view() + spec_settings_args(
            all.skip(i + 1 as int),
        ));
        i = i + 1;
    }
    assert(all.skip(all.len() as int) =~= Seq::<(Seq<char>, Seq<char>)>::empty());
    assert(spec_settings_args(all) =~= r.deep_view());
    r
}

/// A duration in the media tool's notation: `hh:mm:ss.mmm` (dot before the
/// milliseconds, two digit minimum for the time parts, three for the
/// milliseconds).
pub open spec fn spec_duration_display(t: Timestamp) -> Seq<char> {
    util::spec_decimal_w2(t.hours as int) + seq![':'] + util::spec_decimal_w2(t.minutes as int)
        + seq![':'] + util::spec_decimal_w2(t.seconds as int) + seq!['.'] + util::spec_decimal_w3(
        t.milliseconds as int,
    )
}

/// Renders a timestamp as a media tool duration, `hh:mm:ss.mmm`.
pub fn timestamp_to_string(t: Timestamp) -> (r: String)
    ensures
        r@ == spec_duration_display(t),
{
    let mut out: Vec<char> = Vec::new();
    util::push_decimal_w2(&mut out, t.hours);
    out.push(':');
    util::push_decimal_w2(&mut out, t.minutes);
    out.push(':');
    util::push_decimal_w2(&mut out, t.seconds);
    out.push('.');
    util::push_decimal_w3(&mut out, t.milliseconds);
    assert(out@ =~= spec_duration_display(t));
    util::string_of(&out)
}

/// The largest total duration (in milliseconds) a timestamp can carry
/// without leaving the SRT range of 255 hours, 59 minutes, 59 seconds and
/// 999 milliseconds.
pub const MAX_TIMESTAMP_MILLIS: u32 = 921599999;

/// One fully prepared clip invocation.
#[derive(Debug, PartialEq, Eq)]
pub struct ClipJob {
    /// The media tool's arguments, in order.
    pub args: Vec<String>,
    /// The full output path (also carried inside `args`), kept separately
    /// so a failed invocation's partial output can be deleted.
    pub outfile: String,
}

/// The mathematical value of a [`ClipJob`].
pub struct ClipJobView {
    pub args: Seq<Seq<char>>,
    pub outfile: Seq<char>,
}

impl View for ClipJob {
    type V = ClipJobView;

    open spec fn view(&self) -> ClipJobView {
        ClipJobView { args: self.args.deep_view(), outfile: self.outfile@ }
    }
}

/// Why a cue could not be turned into a clip request.
#[derive(Clone, Copy, Debug, PartialEq, Eq, Structural)]
pub enum ClipError {
    /// The cue ends at or before its start: it is not cuttable.
    EmptyRange,
    /// The cue's duration leaves the representable timestamp range.
    DurationOverflow,
}

/// The argument list of one clip invocation: seek to the cue's start in
/// the input, encode for the cue's duration, apply the profile's
/// parameters, write the output file.
pub open spec fn spec_clip_args(
    infile: Seq<char>,
    outfile: Seq<char>,
    start: Timestamp,
    end: Timestamp,
    profile: EncodingProfile,
) -> Seq<Seq<char>> {
    seq![
        "-ss"@,
        spec_duration_display(start),
        "-i"@,
        infile,
        "-t"@,
        spec_duration_display(
            spec_from_millis(end.spec_total_millis() - start.spec_total_millis()),
        ),
    ] + spec_settings_args(spec_profile_params(profile)) + seq![outfile]
}

/// Prepares the clip of `[start, end)` from `infile`, writing to
/// `outfile_basename` plus the profile's extension. The cue must end
/// strictly after it starts, and its duration must stay representable.
pub fn clip(
    infile: &str,
    outfile_basename: &str,
    start: Timestamp,
    end: Timestamp,
    profile: EncodingProfile,
) -> (r: Result<ClipJob, ClipError>)
    ensures
        match r {
            Ok(job) => end.spec_total_millis() > start.spec_total_millis()
                && end.spec_total_millis() - start.spec_total_millis() <= MAX_TIMESTAMP_MILLIS
                && job@.outfile == outfile_basename@ + seq!['.'] + spec_profile_ext(profile)
                && job@.args == spec_clip_args(
                infile@,
                outfile_basename@ + seq!['.'] + spec_profile_ext(profile),
                start,
                end,
                profile,
            ),
            Err(ClipError::EmptyRange) => end.spec_total_millis() <= start.spec_total_millis(),
            Err(ClipError::DurationOverflow) => end.spec_total_millis() - start.spec_total_millis()
                > MAX_TIMESTAMP_MILLIS,
        },
{
    let start_total: u32 = start.total_millis();
    let end_total: u32 = end.total_millis();
    if end_total <= start_total {
        return Err(ClipError::EmptyRange);
    }
    let diff: u32 = end_total - start_total;
    if diff > MAX_TIMESTAMP_MILLIS {
        return Err(ClipError::DurationOverflow);
    }
    let duration = Timestamp::from_total_millis(diff);
    let settings = settings_for(profile);
    let mut outfile = String::new();
    outfile.append(outfile_basename);
    outfile.append(".");
    outfile.append(settings.ext);
    assert(outfile@ =~= outfile_basename@ + seq!['.'] + spec_profile_ext(profile)) by {
        reveal_strlit(".");
    }
    let mut args: Vec<String> = Vec::new();
    args.push(String::from_str("-ss"));
    args.push(timestamp_to_string(start));
    args.push(String::from_str("-i"));
    args.push(String::from_str(infile));
    args.push(String::from_str("-t"));
    args.push(timestamp_to_string(duration));
    let flat = settings_to_args(&settings);
    let mut i: usize = 0;
    let ghost flat_args = spec_settings_args(spec_profile_params(profile));
    let ghost head = seq![
        "-ss"@,
        spec_duration_display(start),
        "-i"@,
        infile@,
        "-t"@,
        spec_duration_display(duration),
    ];
    assert(args.deep_view() =~= head);
    while i < flat.len()
        invariant
            i <= flat@.len(),
            flat.deep_view() == flat_args,
            flat@.len() == flat_args.len(),
            args.deep_view() == head + flat_args.take(i as int),
        decreases flat@.len() - i,
    {
        assert(flat@[i as int]@ == flat_args[i as int]);
        let ghost before = args.deep_view();
        args.push(String::from_str(flat[i]));
        assert(args.deep_view() =~= before.push(flat_args[i as int]));
        assert(flat_args.take(i + 1 as int) =~= flat_args.take(i as int).push(
            flat_args[i as int],
        ));
        assert(args.deep_view() =~= head + flat_args.take(i + 1 as int));
        i = i + 1;
    }
    assert(flat_args.take(flat_args.len() as int) =~= flat_args);
    let out_clone = outfile.clone();
    args.push(out_clone);
    let job = ClipJob { args, outfile };
    assert(job@.args =~= spec_clip_args(
        infile@,
        outfile_basename@ + seq!['.'] + spec_profile_ext(profile),
        start,
        end,
        profile,
    ));
    Ok(job)
}

/// The first cue in a run whose full-precision identifying string (for the
/// video at `path`) is `line`.
pub open spec fn spec_find_cue_in(cues: Seq<CueView>, path: Seq<char>, line: Seq<char>) -> Option<
    CueView,
>
    decreases cues.len(),
{
    if cues.len() == 0 {
        None
    } else if spec_identifying_string(cues[0], path, SubtitleStringFormatOptions::Full) == line {
        Some(cues[0])
    } else {
        spec_find_cue_in(cues.skip(1), path, line)
    }
}

/// The first cue of any subtitle source whose identifying string is
/// `line`, in source order then cue order.
pub open spec fn spec_find_cue(
    subs: Seq<(SubPathView, Seq<CueView>)>,
    path: Seq<char>,
    line: Seq<char>,
) -> Option<CueView>
    decreases subs.len(),
{
    if subs.len() == 0 {
        None
    } else {
        match spec_find_cue_in(subs[0].1, path, line) {
            Some(c) => Some(c),
            None => spec_find_cue(subs.skip(1), path, line),
        }
    }
}

/// Re-locates the cue an identifying string stands for inside an entry.
pub fn find_cue(entry: &crate::db::Entry, line: &String) -> (r: Option<Subtitle>)
    ensures
        match r {
            Some(c) => spec_find_cue(entry@.sub_files, entry@.meta.video_path, line@) == Some(c@),
            None => spec_find_cue(entry@.sub_files, entry@.meta.video_path, line@) is None,
        },
{
    let ghost all = entry@.sub_files;
    let ghost path = entry@.meta.video_path;
    let mut i: usize = 0;
    assert(all.skip(0) =~= all);
    while i < entry.sub_files.len()
        invariant
            i <= entry.sub_files@.len(),
            all == entry@.sub_files,
            path == entry@.meta.video_path,
            entry.sub_files@.len() == all.len(),
            spec_find_cue(all, path, line@) == spec_find_cue(all.skip(i as int), path, line@),
        decreases entry.sub_files@.len() - i,
    {
        let ghost rest = all.skip(i as int);
        assert(rest[0] == all[i as int]);
        let cues = &entry.sub_files[i].1;
        assert(crate::sub::cues_view(cues@) == all[i as int].1);
        let mut j: usize = 0;
        assert(all[i as int].1.skip(0) =~= all[i as int].1);
        while j < cues.len()
            invariant
                j <= cues@.len(),
                all == entry@.sub_files,
                path == entry@.meta.video_path,
                i < all.len(),
                crate::sub::cues_view(cues@) == all[i as int].1,
                cues@.len() == all[i as int].1.len(),
                spec_find_cue(all, path, line@) == spec_find_cue(
                    all.skip(i as int),
                    path,
                    line@,
                ),
                spec_find_cue_in(all[i as int].1, path, line@) == spec_find_cue_in(
                    all[i as int].1.skip(j as int),
                    path,
                    line@,
                ),
            decreases cues@.len() - j,
        {
            let ghost crest = all[i as int].1.skip(j as int);
            assert(crest[0] == all[i as int].1[j as int]);
            assert(cues@[j as int]@ == all[i as int].1[j as int]);
            let s = cues[j].as_identifying_string(
                entry.meta.video_path.as_str(),
                SubtitleStringFormatOptions::Full,
            );
            if s == *line {
                return Some(cues[j].clone());
            }
            assert(crest.skip(1) =~= all[i as int].1.skip(j + 1 as int));
            j = j + 1;
        }
        assert(all[i as int].1.skip(all[i as int].1.len() as int) =~= Seq::<CueView>::empty());
        assert(rest.skip(1) =~= all.skip(i + 1 as int));
        i = i + 1;
    }
    assert(all.skip(all.len() as int) =~= Seq::<(SubPathView, Seq<CueView>)>::empty());
    None
}

/// Why one selection of a batch could not be prepared.
#[derive(Clone, Copy, Debug, PartialEq, Eq, Structural)]
pub enum BatchItemError {
    /// The staleness check itself failed.
    Time(TimestampError),
    /// The video changed, or vanished, between selection and execution:
    /// a hard error for this one item.
    ChangedUnderUs,
    /// The key came from the store but the store no longer knows it: an
    /// internal invariant break.
    MissingKey,
    /// The entry has no cue with the selected string: an internal
    /// invariant break.
    MissingCue,
    /// The cue is not cuttable.
    Clip(ClipError),
}

/// The output path before the extension: the clip directory, optionally a
/// per-profile subdirectory, then the filename.
pub open spec fn spec_out_path(
    clip_dir: Seq<char>,
    subdir_per_profile: bool,
    profile: EncodingProfile,
    filename: Seq<char>,
) -> Seq<char> {
    if subdir_per_profile {
        clip_dir + seq!['/'] + spec_profile_name(profile) + seq!['/'] + filename
    } else {
        clip_dir + seq!['/'] + filename
    }
}

/// What preparing one selection yields: the entry is re-validated against
/// the observed file state, the cue is re-located by its identifying
/// string, and the clip invocation is assembled; each failure is its own
/// error.
pub open spec fn spec_prepare_clip(
    m: Map<Seq<char>, crate::db::EntryView>,
    k: Seq<char>,
    line: Seq<char>,
    st: FileStatus,
    profile: EncodingProfile,
    clip_dir: Seq<char>,
    subdir_per_profile: bool,
) -> Result<ClipJobView, BatchItemError> {
    match spec_lookup(m, k, st) {
        Err(e) => Err(BatchItemError::Time(e)),
        Ok(EntryFoundView::No) => Err(BatchItemError::MissingKey),
        Ok(EntryFoundView::YesButGone) => Err(BatchItemError::ChangedUnderUs),
        Ok(EntryFoundView::YesButChanged) => Err(BatchItemError::ChangedUnderUs),
        Ok(EntryFoundView::Yes(e)) => match spec_find_cue(e.sub_files, e.meta.video_path, line) {
            None => Err(BatchItemError::MissingCue),
            Some(cue) => if cue.end_time.spec_total_millis()
                <= cue.start_time.spec_total_millis() {
                Err(BatchItemError::Clip(ClipError::EmptyRange))
            } else if cue.end_time.spec_total_millis() - cue.start_time.spec_total_millis()
                > MAX_TIMESTAMP_MILLIS {
                Err(BatchItemError::Clip(ClipError::DurationOverflow))
            } else {
                let basename = spec_out_path(
                    clip_dir,
                    subdir_per_profile,
                    profile,
                    spec_identifying_string(
                        cue,
                        e.meta.video_path,
                        SubtitleStringFormatOptions::Filename,
                    ),
                );
                let outfile = basename + seq!['.'] + spec_profile_ext(profile);
                Ok(
                    ClipJobView {
                        args: spec_clip_args(
                            e.meta.video_path,
                            outfile,
                            cue.start_time,
                            cue.end_time,
                            profile,
                        ),
                        outfile,
                    },
                )
            },
        },
    }
}

/// Prepares one selection: re-validates the entry, re-locates the cue,
/// derives the output path and assembles the clip invocation.
pub fn prepare_clip(
    db: &SubDB,
    key: &Key,
    line: &String,
    status: &FileStatus,
    profile: EncodingProfile,
    clip_dir: &str,
    subdir_per_profile: bool,
) -> (r: Result<ClipJob, BatchItemError>)
    requires
        db.wf(),
    ensures
        match r {
            Ok(job) => spec_prepare_clip(
                db.map_view(),
                key@,
                line@,
                *status,
                profile,
                clip_dir@,
                subdir_per_profile,
            ) == Ok::<ClipJobView, BatchItemError>(job@),
            Err(e) => spec_prepare_clip(
                db.map_view(),
                key@,
                line@,
                *status,
                profile,
                clip_dir@,
                subdir_per_profile,
            ) == Err::<ClipJobView, BatchItemError>(e),
        },
{
    let entry = match db.lookup(key, status) {
        Err(e) => {
            return Err(BatchItemError::Time(e));
        },
        Ok(EntryFound::No) => {
            return Err(BatchItemError::MissingKey);
        },
        Ok(EntryFound::YesButGone) => {
            return Err(BatchItemError::ChangedUnderUs);
        },
        Ok(EntryFound::YesButChanged) => {
            return Err(BatchItemError::ChangedUnderUs);
        },
        Ok(EntryFound::Yes(entry)) => entry,
    };
    let cue = match find_cue(&entry, line) {
        None => {
            return Err(BatchItemError::MissingCue);
        },
        Some(cue) => cue,
    };
    let filename = cue.as_identifying_string(
        entry.meta.video_path.as_str(),
        SubtitleStringFormatOptions::Filename,
    );
    let mut basename = String::from_str(clip_dir);
    basename.append("/");
    if subdir_per_profile {
        basename.append(profile.name());
        basename.append("/");
    }
    basename.append(filename.as_str());
    proof {
        reveal_strlit("/");
        assert(basename@ =~= spec_out_path(
            clip_dir@,
            subdir_per_profile,
            profile,
            spec_identifying_string(
                cue@,
                entry@.meta.video_path,
                SubtitleStringFormatOptions::Filename,
            ),
        ));
    }
    match clip(
        entry.meta.video_path.as_str(),
        basename.as_str(),
        cue.start_time,
        cue.end_time,
        profile,
    ) {
        Ok(job) => Ok(job),
        Err(ce) => Err(BatchItemError::Clip(ce)),
    }
}

/// What preparing a whole batch yields: each selection prepared on its
/// own, against its own observed file state.
pub open spec fn spec_prepare_batch(
    m: Map<Seq<char>, crate::db::EntryView>,
    items: Seq<(Seq<char>, Seq<char>)>,
    statuses: Seq<FileStatus>,
    profile: EncodingProfile,
    clip_dir: Seq<char>,
    subdir_per_profile: bool,
) -> Seq<Result<ClipJobView, BatchItemError>> {
    Seq::new(
        items.len(),
        |i: int|
            spec_prepare_clip(
                m,
                items[i].0,
                items[i].1,
                statuses[i],
                profile,
                clip_dir,
                subdir_per_profile,
            ),
    )
}

/// Prepares every selection of a batch. Outcomes are collected per item:
/// one selection's failure never cancels its siblings.
pub fn prepare_batch(
    db: &SubDB,
    selections: &Vec<(Key, String)>,
    statuses: &Vec<FileStatus>,
    profile: EncodingProfile,
    clip_dir: &str,
    subdir_per_profile: bool,
) -> (r: Vec<Result<ClipJob, BatchItemError>>)
    requires
        db.wf(),
        selections@.len() == statuses@.len(),
    ensures
        r@.len() == selections@.len(),
        forall|i: int|
            0 <= i < r@.len() ==> (match #[trigger] r@[i] {
                Ok(job) => spec_prepare_batch(
                    db.map_view(),
                    crate::db::keyed_strings_view(selections@),
                    statuses@,
                    profile,
                    clip_dir@,
                    subdir_per_profile,
                )[i] == Ok::<ClipJobView, BatchItemError>(job@),
                Err(e) => spec_prepare_batch(
                    db.map_view(),
                    crate::db::keyed_strings_view(selections@),
                    statuses@,
                    profile,
                    clip_dir@,
                    subdir_per_profile,
                )[i] == Err::<ClipJobView, BatchItemError>(e),
            }),
{
    let ghost items = crate::db::keyed_strings_view(selections@);
    let mut r: Vec<Result<ClipJob, BatchItemError>> = Vec::new();
    let mut i: usize = 0;
    while i < selections.len()
        invariant
            i <= selections@.len(),
            db.wf(),
            items == crate::db::keyed_strings_view(selections@),
            selections@.len() == items.len(),
            selections@.len() == statuses@.len(),
            r@.len() == i,
            forall|x: int|
                0 <= x < i ==> (match #[trigger] r@[x] {
                    Ok(job) => spec_prepare_clip(
                        db.map_view(),
                        items[x].0,
                        items[x].1,
                        statuses@[x],
                        profile,
                        clip_dir@,
                        subdir_per_profile,
                    ) == Ok::<ClipJobView, BatchItemError>(job@),
                    Err(e) => spec_prepare_clip(
                        db.map_view(),
                        items[x].0,
                        items[x].1,
                        statuses@[x],
                        profile,
                        clip_dir@,
                        subdir_per_profile,
                    ) == Err::<ClipJobView, BatchItemError>(e),
                }),
        decreases selections@.len() - i,
    {
        assert(items[i as int] == (selections@[i as int].0@, selections@[i as int].1@));
        let item = prepare_clip(
            db,
            &selections[i].0,
            &selections[i].1,
            &statuses[i],
            profile,
            clip_dir,
            subdir_per_profile,
        );
        r.push(item);
        i = i + 1;
    }
    r
}

/// Partial-failure isolation: in a prepared batch each selection's outcome
/// is a function of the store, that selection and its own observed file
/// state alone — replacing any *other* selection (and its file state)
/// leaves this one's outcome untouched. In particular, when one selection
/// of a batch fails re-validation, every other selection still yields
/// exactly the clip invocation it would have yielded anyway.
pub proof fn lemma_partial_failure_isolation(
    m: Map<Seq<char>, crate::db::EntryView>,
    items: Seq<(Seq<char>, Seq<char>)>,
    statuses: Seq<FileStatus>,
    profile: EncodingProfile,
    clip_dir: Seq<char>,
    subdir_per_profile: bool,
    i: int,
    j: int,
    other: (Seq<char>, Seq<char>),
    other_st: FileStatus,
)
    requires
        items.len() == statuses.len(),
        0 <= i < items.len(),
        0 <= j < items.len(),
        i != j,
    ensures
        spec_prepare_batch(
            m,
            items.update(j, other),
            statuses.update(j, other_st),
            profile,
            clip_dir,
            subdir_per_profile,
        )[i] == spec_prepare_batch(m, items, statuses, profile, clip_dir, subdir_per_profile)[i],
{
}

} // verus!
