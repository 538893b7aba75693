//! The persistent scan cache: entries keyed by video path, a staleness
//! oracle that compares recorded scan times against filesystem timestamps,
//! and the lookup / lookup-or-update protocol built on both.
//!
//! The store itself never touches the filesystem: callers observe a video
//! file's current state (does it exist, and what are its change and
//! modification timestamps) and hand that observation in as a
//! [`FileStatus`]. Everything the store then decides is verified.

use vstd::prelude::*;

use crate::sub::{cues_view, CueView, Subtitle};

verus! {

/// The identity of a cache entry: the video file's path.
#[derive(Debug, PartialEq, Eq, Hash)]
pub struct Key {
    /// Absolute or canonical path of the video file.
    pub video_path: String,
}

impl View for Key {
    type V = Seq<char>;

    open spec fn view(&self) -> Seq<char> {
        self.video_path@
    }
}

impl Clone for Key {
    /// Cloning keeps the path.
    fn clone(&self) -> (r: Self)
        ensures
            r == *self,
    {
        Key { video_path: self.video_path.clone() }
    }
}

impl Key {
    /// Structural equality on the path.
    pub fn matches(&self, other: &Key) -> (r: bool)
        ensures
            r == (self@ == other@),
    {
        self.video_path == other.video_path
    }
}

/// Where a run of cues came from: a subtitle stream muxed inside the video
/// container, or a sidecar subtitle file next to it.
#[derive(Debug, PartialEq, Eq)]
pub enum SubPath {
    /// Subtitle stream number `stream_id` inside the video container.
    InternalFFmpeg { stream_id: usize },
    /// A standalone subtitle file.
    External { path: String },
}

/// The mathematical value of a [`SubPath`].
pub enum SubPathView {
    InternalFFmpeg { stream_id: int },
    External { path: Seq<char> },
}

impl View for SubPath {
    type V = SubPathView;

    open spec fn view(&self) -> SubPathView {
        match self {
            SubPath::InternalFFmpeg { stream_id } => SubPathView::InternalFFmpeg {
                stream_id: *stream_id as int,
            },
            SubPath::External { path } => SubPathView::External { path: path@ },
        }
    }
}

impl Clone for SubPath {
    /// Cloning keeps the provenance.
    fn clone(&self) -> (r: Self)
        ensures
            r == *self,
    {
        match self {
            SubPath::InternalFFmpeg { stream_id } => SubPath::InternalFFmpeg {
                stream_id: *stream_id,
            },
            SubPath::External { path } => SubPath::External { path: path.clone() },
        }
    }
}

/// What a scan recorded about itself.
#[derive(Debug, PartialEq, Eq, Hash)]
pub struct Metadata {
    /// Absolute or canonical path of the video file the scan looked at.
    pub video_path: String,
    /// When the scan that produced the owning entry began, in nanoseconds
    /// since the epoch. This is the time the entry got indexed, not the
    /// time the video was modified.
    pub time: i64,
}

/// The mathematical value of a [`Metadata`].
pub struct MetadataView {
    pub video_path: Seq<char>,
    pub time: i64,
}

impl View for Metadata {
    type V = MetadataView;

    open spec fn view(&self) -> MetadataView {
        MetadataView { video_path: self.video_path@, time: self.time }
    }
}

impl Clone for Metadata {
    /// Cloning keeps both fields.
    fn clone(&self) -> (r: Self)
        ensures
            r == *self,
    {
        Metadata { video_path: self.video_path.clone(), time: self.time }
    }
}

impl Metadata {
    /// The video path the scan looked at.
    pub fn video_path(&self) -> (r: &String)
        ensures
            r@ == self@.video_path,
    {
        &self.video_path
    }

    /// When the scan began, in nanoseconds since the epoch.
    pub fn time(&self) -> (r: i64)
        ensures
            r == self@.time,
    {
        self.time
    }
}

/// One cached scan result: metadata plus every discovered subtitle source
/// paired with its parsed cues. Entries are replaced wholesale on re-scan,
/// never partially mutated.
#[derive(Debug, PartialEq, Eq)]
pub struct Entry {
    /// What the scan recorded about itself.
    pub meta: Metadata,
    /// Every discovered subtitle source with its parsed cues, in order.
    pub sub_files: Vec<(SubPath, Vec<Subtitle>)>,
}

/// The mathematical value of an [`Entry`].
pub struct EntryView {
    pub meta: MetadataView,
    pub sub_files: Seq<(SubPathView, Seq<CueView>)>,
}

/// The values of a list of subtitle sources with their cues.
pub open spec fn sub_files_view(s: Seq<(SubPath, Vec<Subtitle>)>) -> Seq<
    (SubPathView, Seq<CueView>),
> {
    s.map_values(|p: (SubPath, Vec<Subtitle>)| (p.0@, cues_view(p.1@)))
}

impl View for Entry {
    type V = EntryView;

    open spec fn view(&self) -> EntryView {
        EntryView { meta: self.meta@, sub_files: sub_files_view(self.sub_files@) }
    }
}

impl Clone for Entry {
    /// Cloning keeps the metadata and every source with its cues.
    fn clone(&self) -> (r: Self)
        ensures
            r@ == self@,
    {
        let mut sub_files: Vec<(SubPath, Vec<Subtitle>)> = Vec::new();
        let mut i: usize = 0;
        while i < self.sub_files.len()
            invariant
                i <= self.sub_files@.len(),
                sub_files_view(sub_files@) =~= sub_files_view(self.sub_files@.take(i as int)),
            decreases self.sub_files@.len() - i,
        {
            let pair = &self.sub_files[i];
            let mut cues: Vec<Subtitle> = Vec::new();
            let mut j: usize = 0;
            while j < pair.1.len()
                invariant
                    j <= pair.1@.len(),
                    cues@ =~= pair.1@.take(j as int),
                decreases pair.1@.len() - j,
            {
                cues.push(pair.1[j].clone());
                assert(pair.1@.take(j + 1 as int) =~= pair.1@.take(j as int).push(
                    pair.1@[j as int],
                ));
                j = j + 1;
            }
            assert(pair.1@.take(pair.1@.len() as int) =~= pair.1@);
            sub_files.push((pair.0.clone(), cues));
            assert(sub_files_view(self.sub_files@.take(i + 1 as int)) =~= sub_files_view(
                self.sub_files@.take(i as int),
            ).push((self.sub_files@[i as int].0@, cues_view(self.sub_files@[i as int].1@))));
            i = i + 1;
        }
        assert(self.sub_files@.take(self.sub_files@.len() as int) =~= self.sub_files@);
        let r = Entry { meta: self.meta.clone(), sub_files };
        assert(r@.sub_files =~= self@.sub_files);
        r
    }
}

/// How an entry relates to the file it describes, right now.
#[derive(Clone, Copy, Debug, PartialEq, Eq, Structural)]
pub enum EntryChanged {
    /// The file changed at or after the recorded scan time.
    Yes,
    /// The file has not changed since the scan.
    No,
    /// The file no longer exists, or is no longer a regular file.
    Gone,
}

/// A caller's observation of a video file's current state: absent, or
/// present with its last-status-change and last-modification timestamps
/// (each as whole seconds plus a nanoseconds part, as the filesystem
/// reports them).
#[derive(Clone, Copy, Debug, PartialEq, Eq, Structural)]
pub enum FileStatus {
    /// The path does not exist, or is not a regular file.
    Absent,
    /// The path is a regular file with these stat timestamps.
    Present { ctime_sec: i64, ctime_nsec: i64, mtime_sec: i64, mtime_nsec: i64 },
}

/// Why a staleness classification failed.
#[derive(Clone, Copy, Debug, PartialEq, Eq, Structural)]
pub enum TimestampError {
    /// A nanosecond timestamp would not fit in a 64-bit integer: either
    /// corruption or a far-future clock.
    NanosOutOfRange,
    /// A filesystem timestamp came out zero or negative.
    NonPositive,
}

/// Seconds and a nanosecond remainder as one nanosecond count.
pub open spec fn spec_nanos(sec: int, nsec: int) -> int {
    sec * 1000000000 + nsec
}

/// Whether a value fits in a signed 64-bit integer.
pub open spec fn fits_i64(v: int) -> bool {
    i64::MIN <= v <= i64::MAX
}

/// The filesystem timestamp an entry is compared against: the later of the
/// change time and the modification time, in nanoseconds. Fails when a
/// nanosecond count leaves the 64-bit range (including the intermediate
/// seconds-times-a-billion product, which the conversion computes first) or
/// when a timestamp is not positive.
pub open spec fn spec_relevant_timestamp(
    ctime_sec: i64,
    ctime_nsec: i64,
    mtime_sec: i64,
    mtime_nsec: i64,
) -> Result<int, TimestampError> {
    let c = spec_nanos(ctime_sec as int, ctime_nsec as int);
    let m = spec_nanos(mtime_sec as int, mtime_nsec as int);
    if !(fits_i64(ctime_sec * 1000000000) && fits_i64(c)) {
        Err(TimestampError::NanosOutOfRange)
    } else if !(fits_i64(mtime_sec * 1000000000) && fits_i64(m)) {
        Err(TimestampError::NanosOutOfRange)
    } else if c <= 0 {
        Err(TimestampError::NonPositive)
    } else if m <= 0 {
        Err(TimestampError::NonPositive)
    } else if c >= m {
        Ok(c)
    } else {
        Ok(m)
    }
}

/// Converts seconds plus nanosecond remainder into nanoseconds, refusing
/// values whose conversion would overflow 64 bits.
fn nanos_of(sec: i64, nsec: i64) -> (r: Option<i64>)
    ensures
        match r {
            Some(v) => fits_i64(sec * 1000000000) && fits_i64(spec_nanos(sec as int, nsec as int))
                && v == spec_nanos(sec as int, nsec as int),
            None => !(fits_i64(sec * 1000000000) && fits_i64(
                spec_nanos(sec as int, nsec as int),
            )),
        },
{
    match sec.checked_mul(1000000000) {
        Some(t) => t.checked_add(nsec),
        None => None,
    }
}

/// Computes the relevant filesystem timestamp (see
/// [`spec_relevant_timestamp`]): the later of change time and modification
/// time, each converted to nanoseconds. Comparing against the later of the
/// two guards against cache poisoning via pure renames or metadata touches
/// as well as content edits.
pub fn relevant_timestamp(
    ctime_sec: i64,
    ctime_nsec: i64,
    mtime_sec: i64,
    mtime_nsec: i64,
) -> (r: Result<i64, TimestampError>)
    ensures
        match r {
            Ok(v) => spec_relevant_timestamp(ctime_sec, ctime_nsec, mtime_sec, mtime_nsec) == Ok::<
                int,
                TimestampError,
            >(v as int),
            Err(e) => spec_relevant_timestamp(ctime_sec, ctime_nsec, mtime_sec, mtime_nsec)
                == Err::<int, TimestampError>(e),
        },
{
    let ctime = match nanos_of(ctime_sec, ctime_nsec) {
        Some(v) => v,
        None => {
            return Err(TimestampError::NanosOutOfRange);
        },
    };
    let mtime = match nanos_of(mtime_sec, mtime_nsec) {
        Some(v) => v,
        None => {
            return Err(TimestampError::NanosOutOfRange);
        },
    };
    if ctime <= 0 {
        return Err(TimestampError::NonPositive);
    }
    if mtime <= 0 {
        return Err(TimestampError::NonPositive);
    }
    if ctime >= mtime {
        Ok(ctime)
    } else {
        Ok(mtime)
    }
}

/// How an entry scanned at `scan_time` (nanoseconds since the epoch)
/// relates to a file in state `status`: `Gone` when the file is absent,
/// `Yes` (changed) when the file's relevant timestamp is at or after the
/// scan time, `No` otherwise. The comparison is deliberately `>=`: a file
/// whose last change exactly coincides with the scan time is treated as
/// changed, biasing toward re-scanning over serving possibly-stale data.
pub open spec fn spec_classify(scan_time: i64, status: FileStatus) -> Result<
    EntryChanged,
    TimestampError,
> {
    match status {
        FileStatus::Absent => Ok(EntryChanged::Gone),
        FileStatus::Present { ctime_sec, ctime_nsec, mtime_sec, mtime_nsec } => {
            match spec_relevant_timestamp(ctime_sec, ctime_nsec, mtime_sec, mtime_nsec) {
                Err(e) => Err(e),
                Ok(ts) => if ts >= scan_time {
                    Ok(EntryChanged::Yes)
                } else {
                    Ok(EntryChanged::No)
                },
            }
        },
    }
}

impl Entry {
    /// Builds a fresh entry from one scan's results: `parsed` holds, for
    /// each subtitle stream found inside the video (in stream order), that
    /// stream's parsed cues or its parse failure. Streams that failed are
    /// collected as non-fatal errors; the entry keeps the ones that
    /// succeeded, each tagged with its stream number.
    pub fn from_scan(
        key: &Key,
        scan_time: i64,
        parsed: Vec<Result<Vec<Subtitle>, crate::sub::ParseError>>,
    ) -> (r: (Entry, Vec<crate::sub::ParseError>))
        ensures
            r.0@.meta.video_path == key@,
            r.0@.meta.time == scan_time,
            r.0@.sub_files == spec_scan_sources(parsed@, 0),
            r.1@ == spec_scan_failures(parsed@),
    {
        let mut sub_files: Vec<(SubPath, Vec<Subtitle>)> = Vec::new();
        let mut errors: Vec<crate::sub::ParseError> = Vec::new();
        let mut i: usize = 0;
        assert(parsed@.skip(0) =~= parsed@);
        while i < parsed.len()
            invariant
                i <= parsed@.len(),
                spec_scan_sources(parsed@, 0) =~= sub_files_view(sub_files@) + spec_scan_sources(
                    parsed@.skip(i as int),
                    i as int,
                ),
                spec_scan_failures(parsed@) =~= errors@ + spec_scan_failures(
                    parsed@.skip(i as int),
                ),
            decreases parsed@.len() - i,
        {
            let ghost rest = parsed@.skip(i as int);
            let item = &parsed[i];
            match item {
                Ok(cues) => {
                    let mut copy: Vec<Subtitle> = Vec::new();
                    let mut j: usize = 0;
                    while j < cues.len()
                        invariant
                            j <= cues@.len(),
                            copy@ =~= cues@.take(j as int),
                        decreases cues@.len() - j,
                    {
                        copy.push(cues[j].clone());
                        assert(cues@.take(j + 1 as int) =~= cues@.take(j as int).push(
                            cues@[j as int],
                        ));
                        j = j + 1;
                    }
                    assert(cues@.take(cues@.len() as int) =~= cues@);
                    sub_files.push((SubPath::InternalFFmpeg { stream_id: i }, copy));
                },
                Err(e) => {
                    errors.push(e.clone());
                },
            }
            assert(rest.skip(1) =~= parsed@.skip(i + 1 as int));
            assert(spec_scan_sources(parsed@, 0) =~= sub_files_view(sub_files@)
                + spec_scan_sources(parsed@.skip(i + 1 as int), i + 1 as int));
            assert(spec_scan_failures(parsed@) =~= errors@ + spec_scan_failures(
                parsed@.skip(i + 1 as int),
            ));
            i = i + 1;
        }
        assert(parsed@.skip(parsed@.len() as int) =~= Seq::<
            Result<Vec<Subtitle>, crate::sub::ParseError>,
        >::empty());
        assert(spec_scan_sources(parsed@, 0) =~= sub_files_view(sub_files@));
        assert(spec_scan_failures(parsed@) =~= errors@);
        let entry = Entry {
            meta: Metadata { video_path: key.video_path.clone(), time: scan_time },
            sub_files,
        };
        (entry, errors)
    }

    /// The scan metadata.
    pub fn meta(&self) -> (r: &Metadata)
        ensures
            r@ == self@.meta,
    {
        &self.meta
    }

    /// Every discovered subtitle source with its cues, in discovery order.
    pub fn sub_files(&self) -> (r: &Vec<(SubPath, Vec<Subtitle>)>)
        ensures
            sub_files_view(r@) == self@.sub_files,
    {
        &self.sub_files
    }

    /// Classifies this entry against the file state a caller observed for
    /// its video path. Compares ctime as well as mtime so that renames are
    /// detected too.
    pub fn has_changed(&self, status: &FileStatus) -> (r: Result<EntryChanged, TimestampError>)
        ensures
            r == spec_classify(self@.meta.time, *status),
    {
        match status {
            FileStatus::Absent => Ok(EntryChanged::Gone),
            FileStatus::Present { ctime_sec, ctime_nsec, mtime_sec, mtime_nsec } => {
                match relevant_timestamp(*ctime_sec, *ctime_nsec, *mtime_sec, *mtime_nsec) {
                    Err(e) => Err(e),
                    Ok(ts) => if ts >= self.meta.time {
                        Ok(EntryChanged::Yes)
                    } else {
                        Ok(EntryChanged::No)
                    },
                }
            },
        }
    }
}

/// The subtitle sources a scan keeps: the successfully parsed streams, in
/// order, each tagged with its stream number (`first` is the number of the
/// first stream in `parsed`).
pub open spec fn spec_scan_sources(
    parsed: Seq<Result<Vec<Subtitle>, crate::sub::ParseError>>,
    first: int,
) -> Seq<(SubPathView, Seq<CueView>)>
    decreases parsed.len(),
{
    if parsed.len() == 0 {
        Seq::empty()
    } else {
        let rest = spec_scan_sources(parsed.skip(1), first + 1);
        match parsed[0] {
            Ok(cues) => seq![
                (
                    SubPathView::InternalFFmpeg { stream_id: first },
                    cues_view(cues@),
                ),
            ] + rest,
            Err(_) => rest,
        }
    }
}

/// The parse failures in `parsed`, in stream order.
pub open spec fn spec_scan_failures(
    parsed: Seq<Result<Vec<Subtitle>, crate::sub::ParseError>>,
) -> Seq<crate::sub::ParseError>
    decreases parsed.len(),
{
    if parsed.len() == 0 {
        Seq::empty()
    } else {
        (match parsed[0] {
            Err(e) => seq![e],
            Ok(_) => Seq::empty(),
        }) + spec_scan_failures(parsed.skip(1))
    }
}

/// Staleness monotonicity: with a recorded scan time, an absent file is
/// always `Gone`; a present, validly-timestamped file whose relevant
/// timestamp lies strictly before the scan time is always fresh (`No`),
/// and one whose relevant timestamp lies at or after it is always changed
/// (`Yes`).
pub proof fn lemma_staleness_monotonicity(scan_time: i64, status: FileStatus)
    ensures
        status is Absent ==> spec_classify(scan_time, status) == Ok::<
            EntryChanged,
            TimestampError,
        >(EntryChanged::Gone),
        forall|ts: int|
            spec_status_relevant(status) == Some(ts) && ts < scan_time ==> spec_classify(
                scan_time,
                status,
            ) == Ok::<EntryChanged, TimestampError>(EntryChanged::No),
        forall|ts: int|
            spec_status_relevant(status) == Some(ts) && ts >= scan_time ==> spec_classify(
                scan_time,
                status,
            ) == Ok::<EntryChanged, TimestampError>(EntryChanged::Yes),
{
}

/// The relevant timestamp of an observed file state, when it has one.
pub open spec fn spec_status_relevant(status: FileStatus) -> Option<int> {
    match status {
        FileStatus::Absent => None,
        FileStatus::Present { ctime_sec, ctime_nsec, mtime_sec, mtime_nsec } => {
            match spec_relevant_timestamp(ctime_sec, ctime_nsec, mtime_sec, mtime_nsec) {
                Ok(ts) => Some(ts),
                Err(_) => None,
            }
        },
    }
}

/// What a lookup found, carrying the entry itself when it is usable.
#[derive(Debug, PartialEq, Eq)]
pub enum EntryFound {
    /// The key is cached but its file is gone.
    YesButGone,
    /// The key is cached but its file changed since the scan.
    YesButChanged,
    /// The key is cached and still fresh.
    Yes(Entry),
    /// The key is not in the store.
    No,
}

/// The mathematical value of an [`EntryFound`].
pub enum EntryFoundView {
    YesButGone,
    YesButChanged,
    Yes(EntryView),
    No,
}

impl View for EntryFound {
    type V = EntryFoundView;

    open spec fn view(&self) -> EntryFoundView {
        match self {
            EntryFound::YesButGone => EntryFoundView::YesButGone,
            EntryFound::YesButChanged => EntryFoundView::YesButChanged,
            EntryFound::Yes(e) => EntryFoundView::Yes(e@),
            EntryFound::No => EntryFoundView::No,
        }
    }
}

/// What the single mutating entry point decided.
#[derive(Debug, PartialEq, Eq)]
pub enum LookupOrUpdate {
    /// The cached entry is fresh; here it is, unchanged.
    Fresh(Entry),
    /// The file is gone; its entry has been removed from the store.
    Removed,
    /// The entry is stale or was never cached: the caller must scan the
    /// file and hand the result to [`SubDB::insert_scanned`].
    NeedsRescan,
}

/// The mathematical value of a [`LookupOrUpdate`].
pub enum LookupOrUpdateView {
    Fresh(EntryView),
    Removed,
    NeedsRescan,
}

impl View for LookupOrUpdate {
    type V = LookupOrUpdateView;

    open spec fn view(&self) -> LookupOrUpdateView {
        match self {
            LookupOrUpdate::Fresh(e) => LookupOrUpdateView::Fresh(e@),
            LookupOrUpdate::Removed => LookupOrUpdateView::Removed,
            LookupOrUpdate::NeedsRescan => LookupOrUpdateView::NeedsRescan,
        }
    }
}

/// The values of a list of keyed entries.
pub open spec fn pairs_view(s: Seq<(Key, Entry)>) -> Seq<(Seq<char>, EntryView)> {
    s.map_values(|p: (Key, Entry)| (p.0@, p.1@))
}

/// No key occurs twice.
pub open spec fn unique_keys(s: Seq<(Seq<char>, EntryView)>) -> bool {
    forall|i: int, j: int| 0 <= i < j < s.len() ==> s[i].0 != s[j].0
}

/// Whether some pair carries the key.
pub open spec fn spec_contains(s: Seq<(Seq<char>, EntryView)>, k: Seq<char>) -> bool {
    exists|i: int| 0 <= i < s.len() && s[i].0 == k
}

/// The entry some pair carries for the key (unambiguous under
/// [`unique_keys`]).
pub open spec fn spec_entry_of(s: Seq<(Seq<char>, EntryView)>, k: Seq<char>) -> EntryView {
    s[choose|i: int| 0 <= i < s.len() && s[i].0 == k].1
}

/// The list of keyed entries as a map.
pub open spec fn map_of(s: Seq<(Seq<char>, EntryView)>) -> Map<Seq<char>, EntryView> {
    Map::new(|k: Seq<char>| spec_contains(s, k), |k: Seq<char>| spec_entry_of(s, k))
}

/// Under unique keys, the pair at a matching position is the map's entry.
pub proof fn lemma_entry_at(s: Seq<(Seq<char>, EntryView)>, k: Seq<char>, i: int)
    requires
        unique_keys(s),
        0 <= i < s.len(),
        s[i].0 == k,
    ensures
        spec_contains(s, k),
        map_of(s).dom().contains(k),
        map_of(s)[k] == s[i].1,
{
    assert(spec_contains(s, k));
    let j = choose|j: int| 0 <= j < s.len() && s[j].0 == k;
    if i < j {
        assert(s[i].0 != s[j].0);
    } else if j < i {
        assert(s[j].0 != s[i].0);
    }
}

/// Removing the pair at a key's position removes the key from the map.
pub proof fn lemma_map_of_remove(s: Seq<(Seq<char>, EntryView)>, k: Seq<char>, i: int)
    requires
        unique_keys(s),
        0 <= i < s.len(),
        s[i].0 == k,
    ensures
        unique_keys(s.remove(i)),
        map_of(s.remove(i)) =~= map_of(s).remove(k),
{
    let s2 = s.remove(i);
    assert forall|k2: Seq<char>| spec_contains(s2, k2) implies spec_contains(s, k2) && k2
        != k by {
        let j = choose|j: int| 0 <= j < s2.len() && s2[j].0 == k2;
        let j0 = if j < i {
            j
        } else {
            j + 1
        };
        assert(s[j0].0 == k2);
        if j0 != i {
            if i < j0 {
                assert(s[i].0 != s[j0].0);
            } else {
                assert(s[j0].0 != s[i].0);
            }
        }
    }
    assert forall|k2: Seq<char>| spec_contains(s, k2) && k2 != k implies spec_contains(
        s2,
        k2,
    ) by {
        let j = choose|j: int| 0 <= j < s.len() && s[j].0 == k2;
        if j < i {
            assert(s2[j].0 == k2);
        } else {
            assert(j != i);
            assert(s2[j - 1].0 == k2);
        }
    }
    assert forall|k2: Seq<char>| spec_contains(s2, k2) implies spec_entry_of(s2, k2)
        == spec_entry_of(s, k2) by {
        let j = choose|j: int| 0 <= j < s2.len() && s2[j].0 == k2;
        let j0 = if j < i {
            j
        } else {
            j + 1
        };
        assert(s[j0].0 == k2);
        lemma_entry_at(s, k2, j0);
        assert(unique_keys(s2));
        lemma_entry_at(s2, k2, j);
    }
}

/// Overwriting the pair at a key's position updates the map at that key.
pub proof fn lemma_map_of_update(
    s: Seq<(Seq<char>, EntryView)>,
    k: Seq<char>,
    i: int,
    e: EntryView,
)
    requires
        unique_keys(s),
        0 <= i < s.len(),
        s[i].0 == k,
    ensures
        unique_keys(s.update(i, (k, e))),
        map_of(s.update(i, (k, e))) =~= map_of(s).insert(k, e),
{
    let s2 = s.update(i, (k, e));
    assert forall|k2: Seq<char>| spec_contains(s2, k2) implies spec_contains(s, k2) by {
        let j = choose|j: int| 0 <= j < s2.len() && s2[j].0 == k2;
        assert(s[j].0 == k2 || k2 == k);
    }
    assert forall|k2: Seq<char>| spec_contains(s, k2) implies spec_contains(s2, k2) by {
        let j = choose|j: int| 0 <= j < s.len() && s[j].0 == k2;
        assert(s2[j].0 == k2 || k2 == k && s2[i].0 == k2);
    }
    assert forall|k2: Seq<char>| spec_contains(s2, k2) && k2 != k implies spec_entry_of(s2, k2)
        == spec_entry_of(s, k2) by {
        let j = choose|j: int| 0 <= j < s2.len() && s2[j].0 == k2;
        assert(j != i);
        assert(s[j].0 == k2);
        lemma_entry_at(s, k2, j);
        lemma_entry_at(s2, k2, j);
    }
    lemma_entry_at(s2, k, i);
}

/// Appending a pair with an unseen key inserts it into the map.
pub proof fn lemma_map_of_push(s: Seq<(Seq<char>, EntryView)>, k: Seq<char>, e: EntryView)
    requires
        unique_keys(s),
        !spec_contains(s, k),
    ensures
        unique_keys(s.push((k, e))),
        map_of(s.push((k, e))) =~= map_of(s).insert(k, e),
{
    let s2 = s.push((k, e));
    assert forall|i: int, j: int| 0 <= i < j < s2.len() implies s2[i].0 != s2[j].0 by {
        if j == s2.len() - 1 {
            assert(s2[i].0 == s[i].0);
            if s2[i].0 == k {
                assert(spec_contains(s, k));
            }
        }
    }
    assert forall|k2: Seq<char>| spec_contains(s2, k2) implies spec_contains(s, k2) || k2
        == k by {
        let j = choose|j: int| 0 <= j < s2.len() && s2[j].0 == k2;
        if j < s.len() {
            assert(s[j].0 == k2);
        }
    }
    assert forall|k2: Seq<char>| spec_contains(s, k2) implies spec_contains(s2, k2) by {
        let j = choose|j: int| 0 <= j < s.len() && s[j].0 == k2;
        assert(s2[j].0 == k2);
    }
    assert(s2[s.len() as int].0 == k);
    assert(spec_contains(s2, k));
    assert forall|k2: Seq<char>| spec_contains(s2, k2) && k2 != k implies spec_entry_of(s2, k2)
        == spec_entry_of(s, k2) by {
        let j = choose|j: int| 0 <= j < s.len() && s[j].0 == k2;
        assert(s2[j].0 == k2);
        lemma_entry_at(s, k2, j);
        lemma_entry_at(s2, k2, j);
    }
    lemma_entry_at(s2, k, s.len() as int);
}

/// What a pure lookup reports for a key given the observed file state: not
/// present, or the cached entry classified fresh / changed / gone.
pub open spec fn spec_lookup(
    m: Map<Seq<char>, EntryView>,
    k: Seq<char>,
    st: FileStatus,
) -> Result<EntryFoundView, TimestampError> {
    if !m.dom().contains(k) {
        Ok(EntryFoundView::No)
    } else {
        match spec_classify(m[k].meta.time, st) {
            Err(e) => Err(e),
            Ok(EntryChanged::Yes) => Ok(EntryFoundView::YesButChanged),
            Ok(EntryChanged::No) => Ok(EntryFoundView::Yes(m[k])),
            Ok(EntryChanged::Gone) => Ok(EntryFoundView::YesButGone),
        }
    }
}

/// What the mutating lookup does to the store and reports back: a gone
/// file prunes its key; a fresh entry is returned unchanged; a stale or
/// missing entry leaves the store alone and asks for a rescan.
pub open spec fn spec_lookup_or_update(
    m: Map<Seq<char>, EntryView>,
    k: Seq<char>,
    st: FileStatus,
) -> (Map<Seq<char>, EntryView>, Result<LookupOrUpdateView, TimestampError>) {
    if !m.dom().contains(k) {
        (m, Ok(LookupOrUpdateView::NeedsRescan))
    } else {
        match spec_classify(m[k].meta.time, st) {
            Err(e) => (m, Err(e)),
            Ok(EntryChanged::Gone) => (m.remove(k), Ok(LookupOrUpdateView::Removed)),
            Ok(EntryChanged::No) => (m, Ok(LookupOrUpdateView::Fresh(m[k]))),
            Ok(EntryChanged::Yes) => (m, Ok(LookupOrUpdateView::NeedsRescan)),
        }
    }
}

/// The persistent scan cache: a mapping from video path to scan result,
/// backed by a file. At most one entry per key.
#[derive(Debug, PartialEq, Eq)]
pub struct SubDB {
    db: Vec<(Key, Entry)>,
    db_path: String,
}

impl View for SubDB {
    type V = Seq<(Seq<char>, EntryView)>;

    closed spec fn view(&self) -> Seq<(Seq<char>, EntryView)> {
        pairs_view(self.db@)
    }
}

impl SubDB {
    /// The store's invariant: no key occurs twice.
    pub open spec fn wf(self) -> bool {
        unique_keys(self@)
    }

    /// The store as a map from key to entry.
    pub open spec fn map_view(self) -> Map<Seq<char>, EntryView> {
        map_of(self@)
    }

    /// Where the store is persisted.
    pub closed spec fn spec_db_path(self) -> Seq<char> {
        self.db_path@
    }

    /// An empty store that will persist to `db_path`.
    pub fn new(db_path: String) -> (r: SubDB)
        ensures
            r@ == Seq::<(Seq<char>, EntryView)>::empty(),
            r.spec_db_path() == db_path@,
            r.wf(),
    {
        let r = SubDB { db: Vec::new(), db_path };
        assert(r@ =~= Seq::<(Seq<char>, EntryView)>::empty());
        r
    }

    /// The backing file's path.
    pub fn db_path(&self) -> (r: &String)
        ensures
            r@ == self.spec_db_path(),
    {
        &self.db_path
    }

    /// How many entries the store holds.
    pub fn len(&self) -> (r: usize)
        ensures
            r == self@.len(),
    {
        self.db.len()
    }

    /// The stored pairs, in storage order.
    pub fn entries(&self) -> (r: &Vec<(Key, Entry)>)
        ensures
            pairs_view(r@) == self@,
    {
        &self.db
    }

    /// The position of the key's pair, if any.
    fn find_index(&self, key: &Key) -> (r: Option<usize>)
        ensures
            match r {
                Some(i) => i < self@.len() && self@[i as int].0 == key@,
                None => !spec_contains(self@, key@),
            },
    {
        let mut i: usize = 0;
        while i < self.db.len()
            invariant
                i <= self@.len(),
                self@.len() == self.db@.len(),
                self@ == pairs_view(self.db@),
                forall|j: int| 0 <= j < i ==> self@[j].0 != key@,
            decreases self@.len() - i,
        {
            if self.db[i].0.matches(key) {
                return Some(i);
            }
            i = i + 1;
        }
        None
    }

    /// Pure lookup: consults the map and classifies the cached entry (if
    /// any) against the observed file state. Never mutates the store.
    pub fn lookup(&self, key: &Key, status: &FileStatus) -> (r: Result<
        EntryFound,
        TimestampError,
    >)
        requires
            self.wf(),
        ensures
            match r {
                Ok(f) => spec_lookup(self.map_view(), key@, *status) == Ok::<
                    EntryFoundView,
                    TimestampError,
                >(f@),
                Err(e) => spec_lookup(self.map_view(), key@, *status) == Err::<
                    EntryFoundView,
                    TimestampError,
                >(e),
            },
    {
        match self.find_index(key) {
            None => Ok(EntryFound::No),
            Some(i) => {
                proof {
                    lemma_entry_at(self@, key@, i as int);
                }
                let entry = &self.db[i].1;
                match entry.has_changed(status) {
                    Err(e) => Err(e),
                    Ok(EntryChanged::Yes) => Ok(EntryFound::YesButChanged),
                    Ok(EntryChanged::No) => Ok(EntryFound::Yes(entry.clone())),
                    Ok(EntryChanged::Gone) => Ok(EntryFound::YesButGone),
                }
            },
        }
    }

    /// The single mutating entry point of the scan phase. A gone file has
    /// its key pruned; a fresh entry comes back unchanged; a stale or
    /// uncached key asks the caller to scan the file and hand the result
    /// to [`SubDB::insert_scanned`]. Splitting the expensive scan out of
    /// the store is what lets this function promise it performs no rescan
    /// work on a fresh hit.
    pub fn lookup_or_update(&mut self, key: &Key, status: &FileStatus) -> (r: Result<
        LookupOrUpdate,
        TimestampError,
    >)
        requires
            old(self).wf(),
        ensures
            final(self).wf(),
            final(self).spec_db_path() == old(self).spec_db_path(),
            final(self).map_view() == spec_lookup_or_update(
                old(self).map_view(),
                key@,
                *status,
            ).0,
            match r {
                Ok(o) => spec_lookup_or_update(old(self).map_view(), key@, *status).1 == Ok::<
                    LookupOrUpdateView,
                    TimestampError,
                >(o@),
                Err(e) => spec_lookup_or_update(old(self).map_view(), key@, *status).1 == Err::<
                    LookupOrUpdateView,
                    TimestampError,
                >(e),
            },
    {
        match self.find_index(key) {
            None => Ok(LookupOrUpdate::NeedsRescan),
            Some(i) => {
                proof {
                    lemma_entry_at(self@, key@, i as int);
                }
                let entry = &self.db[i].1;
                match entry.has_changed(status) {
                    Err(e) => Err(e),
                    Ok(EntryChanged::Yes) => Ok(LookupOrUpdate::NeedsRescan),
                    Ok(EntryChanged::No) => Ok(LookupOrUpdate::Fresh(entry.clone())),
                    Ok(EntryChanged::Gone) => {
                        proof {
                            lemma_map_of_remove(self@, key@, i as int);
                            assert(pairs_view(self.db@.remove(i as int)) =~= pairs_view(
                                self.db@,
                            ).remove(i as int));
                        }
                        let _ = self.db.remove(i);
                        Ok(LookupOrUpdate::Removed)
                    },
                }
            },
        }
    }

    /// Installs the result of a fresh scan, replacing any prior entry for
    /// the key.
    pub fn insert_scanned(&mut self, key: Key, entry: Entry)
        requires
            old(self).wf(),
        ensures
            final(self).wf(),
            final(self).spec_db_path() == old(self).spec_db_path(),
            final(self).map_view() == old(self).map_view().insert(key@, entry@),
            !spec_contains(old(self)@, key@) ==> final(self)@ == old(self)@.push(
                (key@, entry@),
            ),
    {
        let ghost k = key@;
        let ghost e = entry@;
        match self.find_index(&key) {
            Some(i) => {
                proof {
                    lemma_map_of_update(self@, k, i as int, e);
                    assert(pairs_view(self.db@.update(i as int, (key, entry))) =~= pairs_view(
                        self.db@,
                    ).update(i as int, (k, e)));
                }
                self.db.set(i, (key, entry));
            },
            None => {
                proof {
                    lemma_map_of_push(self@, k, e);
                    assert(pairs_view(self.db@.push((key, entry))) =~= pairs_view(self.db@).push(
                        (k, e),
                    ));
                }
                self.db.push((key, entry));
            },
        }
    }
}

/// The identifying strings of a run of cues within the video at `path`,
/// in cue order, at full precision.
pub open spec fn spec_cues_id_strings(path: Seq<char>, cues: Seq<CueView>) -> Seq<Seq<char>>
    decreases cues.len(),
{
    if cues.len() == 0 {
        Seq::empty()
    } else {
        seq![
            crate::sub::spec_identifying_string(
                cues[0],
                path,
                crate::sub::SubtitleStringFormatOptions::Full,
            ),
        ] + spec_cues_id_strings(path, cues.skip(1))
    }
}

/// The identifying strings of every cue of every subtitle source, in
/// source order then cue order.
pub open spec fn spec_sources_id_strings(
    path: Seq<char>,
    subs: Seq<(SubPathView, Seq<CueView>)>,
) -> Seq<Seq<char>>
    decreases subs.len(),
{
    if subs.len() == 0 {
        Seq::empty()
    } else {
        spec_cues_id_strings(path, subs[0].1) + spec_sources_id_strings(path, subs.skip(1))
    }
}

/// Every identifying string an entry gives rise to.
pub open spec fn spec_entry_id_strings(e: EntryView) -> Seq<Seq<char>> {
    spec_sources_id_strings(e.meta.video_path, e.sub_files)
}

/// Each of `ts` paired with the key `k`.
pub open spec fn spec_keyed_strings(k: Seq<char>, ts: Seq<Seq<char>>) -> Seq<
    (Seq<char>, Seq<char>),
>
    decreases ts.len(),
{
    if ts.len() == 0 {
        Seq::empty()
    } else {
        seq![(k, ts[0])] + spec_keyed_strings(k, ts.skip(1))
    }
}

/// Every identifying string the whole store gives rise to, each paired
/// with the key of the entry it came from, in storage order.
pub open spec fn spec_db_id_strings(s: Seq<(Seq<char>, EntryView)>) -> Seq<
    (Seq<char>, Seq<char>),
>
    decreases s.len(),
{
    if s.len() == 0 {
        Seq::empty()
    } else {
        spec_keyed_strings(s[0].0, spec_entry_id_strings(s[0].1)) + spec_db_id_strings(s.skip(1))
    }
}

/// The values of a list of key / identifying-string pairs.
pub open spec fn keyed_strings_view(v: Seq<(Key, String)>) -> Seq<(Seq<char>, Seq<char>)> {
    v.map_values(|p: (Key, String)| (p.0@, p.1@))
}

impl Entry {
    /// The identifying string of every cue in this entry, in source order
    /// then cue order, at full precision.
    pub fn as_identifying_strings(&self) -> (r: Vec<String>)
        ensures
            r.deep_view() == spec_entry_id_strings(self@),
    {
        let ghost path = self@.meta.video_path;
        let ghost all = self@.sub_files;
        let mut out: Vec<String> = Vec::new();
        let mut i: usize = 0;
        assert(all.skip(0) =~= all);
        assert(out.deep_view() =~= Seq::<Seq<char>>::empty());
        while i < self.sub_files.len()
            invariant
                i <= self.sub_files@.len(),
                all == self@.sub_files,
                path == self@.meta.video_path,
                self.sub_files@.len() == all.len(),
                spec_sources_id_strings(path, all) == out.deep_view() + spec_sources_id_strings(
                    path,
                    all.skip(i as int),
                ),
            decreases self.sub_files@.len() - i,
        {
            let ghost rest = all.skip(i as int);
            let cues = &self.sub_files[i].1;
            assert(rest[0] == all[i as int]);
            assert(cues_view(cues@) == all[i as int].1);
            let mut j: usize = 0;
            assert(all[i as int].1.skip(0) =~= all[i as int].1);
            assert(rest.skip(1) =~= all.skip(i + 1 as int));
            assert(spec_sources_id_strings(path, rest) == spec_cues_id_strings(path, rest[0].1)
                + spec_sources_id_strings(path, rest.skip(1)));
            while j < cues.len()
                invariant
                    j <= cues@.len(),
                    all == self@.sub_files,
                    path == self@.meta.video_path,
                    i < all.len(),
                    cues_view(cues@) == all[i as int].1,
                    cues@.len() == all[i as int].1.len(),
                    spec_sources_id_strings(path, all) == out.deep_view()
                        + spec_cues_id_strings(path, all[i as int].1.skip(j as int))
                        + spec_sources_id_strings(path, all.skip(i + 1 as int)),
                decreases cues@.len() - j,
            {
                let ghost crest = all[i as int].1.skip(j as int);
                assert(crest[0] == all[i as int].1[j as int]);
                assert(cues@[j as int]@ == all[i as int].1[j as int]);
                let s = cues[j].as_identifying_string(
                    self.meta.video_path.as_str(),
                    crate::sub::SubtitleStringFormatOptions::Full,
                );
                out.push(s);
                assert(out.deep_view() =~= out.deep_view().take(out.deep_view().len() - 1).push(
                    s@,
                ));
                assert(crest.skip(1) =~= all[i as int].1.skip(j + 1 as int));
                assert(spec_sources_id_strings(path, all) =~= out.deep_view()
                    + spec_cues_id_strings(path, all[i as int].1.skip(j + 1 as int))
                    + spec_sources_id_strings(path, all.skip(i + 1 as int)));
                j = j + 1;
            }
            assert(all[i as int].1.skip(all[i as int].1.len() as int) =~= Seq::<CueView>::empty());
            assert(spec_cues_id_strings(path, Seq::<CueView>::empty()) =~= Seq::<
                Seq<char>,
            >::empty());
            assert(spec_sources_id_strings(path, all) =~= out.deep_view()
                + spec_sources_id_strings(path, all.skip(i + 1 as int)));
            i = i + 1;
        }
        assert(all.skip(all.len() as int) =~= Seq::<(SubPathView, Seq<CueView>)>::empty());
        assert(spec_sources_id_strings(path, all) =~= out.deep_view());
        out
    }
}

impl SubDB {
    /// Every identifying string in the store, each paired with the key it
    /// belongs to, in storage order.
    pub fn as_identifying_strings(&self) -> (r: Vec<(Key, String)>)
        ensures
            keyed_strings_view(r@) == spec_db_id_strings(self@),
    {
        let ghost all = self@;
        let mut out: Vec<(Key, String)> = Vec::new();
        let mut i: usize = 0;
        assert(all.skip(0) =~= all);
        assert(keyed_strings_view(out@) =~= Seq::<(Seq<char>, Seq<char>)>::empty());
        while i < self.db.len()
            invariant
                i <= self.db@.len(),
                all == self@,
                self.db@.len() == all.len(),
                spec_db_id_strings(all) == keyed_strings_view(out@) + spec_db_id_strings(
                    all.skip(i as int),
                ),
            decreases self.db@.len() - i,
        {
            let ghost rest = all.skip(i as int);
            assert(rest[0] == all[i as int]);
            let key = &self.db[i].0;
            let strings = self.db[i].1.as_identifying_strings();
            assert(key@ == all[i as int].0);
            assert(strings.deep_view() == spec_entry_id_strings(all[i as int].1));
            let ghost ts = strings.deep_view();
            let mut j: usize = 0;
            assert(ts.skip(0) =~= ts);
            assert(rest.skip(1) =~= all.skip(i + 1 as int));
            assert(spec_db_id_strings(rest) == spec_keyed_strings(
                rest[0].0,
                spec_entry_id_strings(rest[0].1),
            ) + spec_db_id_strings(rest.skip(1)));
            while j < strings.len()
                invariant
                    j <= strings@.len(),
                    all == self@,
                    i < all.len(),
                    key@ == all[i as int].0,
                    ts == strings.deep_view(),
                    strings@.len() == ts.len(),
                    spec_db_id_strings(all) == keyed_strings_view(out@) + spec_keyed_strings(
                        all[i as int].0,
                        ts.skip(j as int),
                    ) + spec_db_id_strings(all.skip(i + 1 as int)),
                decreases strings@.len() - j,
            {
                let ghost trest = ts.skip(j as int);
                assert(trest[0] == ts[j as int]);
                assert(strings@[j as int]@ == ts[j as int]);
                out.push((key.clone(), strings[j].clone()));
                assert(keyed_strings_view(out@) =~= keyed_strings_view(out@).take(
                    keyed_strings_view(out@).len() - 1,
                ).push((key@, ts[j as int])));
                assert(trest.skip(1) =~= ts.skip(j + 1 as int));
                assert(spec_db_id_strings(all) =~= keyed_strings_view(out@) + spec_keyed_strings(
                    all[i as int].0,
                    ts.skip(j + 1 as int),
                ) + spec_db_id_strings(all.skip(i + 1 as int)));
                j = j + 1;
            }
            assert(ts.skip(ts.len() as int) =~= Seq::<Seq<char>>::empty());
            assert(spec_keyed_strings(all[i as int].0, Seq::<Seq<char>>::empty()) =~= Seq::<
                (Seq<char>, Seq<char>),
            >::empty());
            assert(spec_db_id_strings(all) =~= keyed_strings_view(out@) + spec_db_id_strings(
                all.skip(i + 1 as int),
            ));
            i = i + 1;
        }
        assert(all.skip(all.len() as int) =~= Seq::<(Seq<char>, EntryView)>::empty());
        assert(spec_db_id_strings(all) =~= keyed_strings_view(out@));
        out
    }
}

/// Idempotent fresh lookup: when the cached entry for a key classifies as
/// fresh, the mutating lookup returns exactly that entry and leaves the
/// store untouched — so a second call on the unchanged store returns the
/// same entry again, and neither call asks for rescan work.
pub proof fn lemma_idempotent_fresh_lookup(
    m: Map<Seq<char>, EntryView>,
    k: Seq<char>,
    st: FileStatus,
)
    requires
        m.dom().contains(k),
        spec_classify(m[k].meta.time, st) == Ok::<EntryChanged, TimestampError>(EntryChanged::No),
    ensures
        spec_lookup_or_update(m, k, st) == (m, Ok::<LookupOrUpdateView, TimestampError>(
            LookupOrUpdateView::Fresh(m[k]),
        )),
        spec_lookup_or_update(spec_lookup_or_update(m, k, st).0, k, st) == (m, Ok::<
            LookupOrUpdateView,
            TimestampError,
        >(LookupOrUpdateView::Fresh(m[k]))),
{
}

/// Gone-entry pruning: when the cached entry for a key classifies as gone,
/// the mutating lookup removes exactly that key, and any later lookup for
/// it reports not-present, whatever file state it observes.
pub proof fn lemma_gone_entry_pruning(m: Map<Seq<char>, EntryView>, k: Seq<char>, st: FileStatus)
    requires
        m.dom().contains(k),
        spec_classify(m[k].meta.time, st) == Ok::<EntryChanged, TimestampError>(
            EntryChanged::Gone,
        ),
    ensures
        spec_lookup_or_update(m, k, st) == (m.remove(k), Ok::<LookupOrUpdateView, TimestampError>(
            LookupOrUpdateView::Removed,
        )),
        forall|st2: FileStatus|
            spec_lookup(spec_lookup_or_update(m, k, st).0, k, st2) == Ok::<
                EntryFoundView,
                TimestampError,
            >(EntryFoundView::No),
        forall|k2: Seq<char>|
            k2 != k ==> spec_lookup_or_update(m, k, st).0.dom().contains(k2) == m.dom().contains(
                k2,
            ),
{
}

} // verus!
