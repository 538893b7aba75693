//! Subtitle cues and their timestamps.
//!
//! A [`Timestamp`] is a wall-clock offset into a video with millisecond
//! resolution, held as hours / minutes / seconds / milliseconds. A
//! [`Subtitle`] is one timed cue: a sequence number, a start and end
//! timestamp, and a line of text. Cues enter the system by parsing the text
//! of an SRT file, and every cue can be rendered as an *identifying string*,
//! a deterministic human-readable label that is also used to correlate a
//! user's selection back to the cue it came from.

use vstd::prelude::*;

use crate::util;
use crate::util::{
    escape_spec, escape_vec, push_decimal_w2, push_decimal_w3, spec_decimal_w2, spec_decimal_w3,
    take_chars,
};

verus! {

/// A wall-clock offset into a video, with millisecond resolution.
///
/// Constructed values are normalized: the given parts are folded into a
/// total number of milliseconds and decomposed again, so that minutes and
/// seconds are below sixty whenever the total fits in 256 hours.
#[derive(Clone, Copy, Debug, PartialEq, Eq, Hash, Structural)]
pub struct Timestamp {
    /// The hours part.
    pub hours: u8,
    /// The minutes part, below sixty in a normalized value.
    pub minutes: u8,
    /// The seconds part, below sixty in a normalized value.
    pub seconds: u8,
    /// The milliseconds part, below a thousand in a normalized value.
    pub milliseconds: u16,
}

/// The total number of milliseconds described by the given parts.
pub open spec fn spec_millis_of_parts(h: int, m: int, s: int, ms: int) -> int {
    ((h * 60 + m) * 60 + s) * 1000 + ms
}

/// Decomposition of a total number of milliseconds into timestamp parts,
/// truncating each part to its field width (the decomposition an SRT
/// timestamp value reports for its parts).
pub open spec fn spec_from_millis(total: int) -> Timestamp {
    let hours = (total / 3600000) % 256;
    let rem1 = total - hours * 3600000;
    let minutes = (rem1 / 60000) % 256;
    let rem2 = rem1 - minutes * 60000;
    let seconds = (rem2 / 1000) % 256;
    let rem3 = rem2 - seconds * 1000;
    Timestamp {
        hours: hours as u8,
        minutes: minutes as u8,
        seconds: seconds as u8,
        milliseconds: (rem3 % 65536) as u16,
    }
}

/// The timestamp rendered as `hh:mm:ss,mmm` (the SRT notation, two digit
/// minimum for the time parts, three for the milliseconds).
pub open spec fn spec_display(t: Timestamp) -> Seq<char> {
    spec_decimal_w2(t.hours as int) + seq![':'] + spec_decimal_w2(t.minutes as int) + seq![':']
        + spec_decimal_w2(t.seconds as int) + seq![','] + spec_decimal_w3(t.milliseconds as int)
}

impl Timestamp {
    /// The total number of milliseconds this timestamp stands for.
    pub open spec fn spec_total_millis(self) -> int {
        spec_millis_of_parts(
            self.hours as int,
            self.minutes as int,
            self.seconds as int,
            self.milliseconds as int,
        )
    }

    /// Constructs a normalized timestamp from parts.
    pub fn new(hours: u8, minutes: u8, seconds: u8, milliseconds: u16) -> (r: Timestamp)
        ensures
            r == spec_from_millis(
                spec_millis_of_parts(
                    hours as int,
                    minutes as int,
                    seconds as int,
                    milliseconds as int,
                ),
            ),
    {
        let total: u32 = ((hours as u32 * 60) + minutes as u32) * 60 * 1000 + seconds as u32
            * 1000 + milliseconds as u32;
        assert(total as int == spec_millis_of_parts(
            hours as int,
            minutes as int,
            seconds as int,
            milliseconds as int,
        ));
        Self::from_total_millis(total)
    }

    /// Constructs a normalized timestamp from a total number of
    /// milliseconds.
    pub fn from_total_millis(total: u32) -> (r: Timestamp)
        ensures
            r == spec_from_millis(total as int),
    {
        let hd: u32 = total / 3600000;
        let h: u8 = (hd % 256) as u8;
        assert(h as u32 <= hd);
        let rem1: u32 = total - h as u32 * 3600000;
        let md: u32 = rem1 / 60000;
        let m: u8 = (md % 256) as u8;
        assert(m as u32 <= md);
        let rem2: u32 = rem1 - m as u32 * 60000;
        let sd: u32 = rem2 / 1000;
        let s: u8 = (sd % 256) as u8;
        assert(s as u32 <= sd);
        let rem3: u32 = rem2 - s as u32 * 1000;
        let ms: u16 = (rem3 % 65536) as u16;
        Timestamp { hours: h, minutes: m, seconds: s, milliseconds: ms }
    }

    /// The parts as a tuple `(hours, minutes, seconds, milliseconds)`.
    pub fn get(self) -> (r: (u8, u8, u8, u16))
        ensures
            r == (self.hours, self.minutes, self.seconds, self.milliseconds),
    {
        (self.hours, self.minutes, self.seconds, self.milliseconds)
    }

    /// The hours part.
    pub fn get_hours(&self) -> (r: u8)
        ensures
            r == self.hours,
    {
        self.hours
    }

    /// The minutes part.
    pub fn get_minutes(&self) -> (r: u8)
        ensures
            r == self.minutes,
    {
        self.minutes
    }

    /// The seconds part.
    pub fn get_seconds(&self) -> (r: u8)
        ensures
            r == self.seconds,
    {
        self.seconds
    }

    /// The milliseconds part.
    pub fn get_milliseconds(&self) -> (r: u16)
        ensures
            r == self.milliseconds,
    {
        self.milliseconds
    }

    /// The total number of milliseconds, as a machine integer.
    pub fn total_millis(&self) -> (r: u32)
        ensures
            r as int == self.spec_total_millis(),
    {
        ((self.hours as u32 * 60) + self.minutes as u32) * 60 * 1000 + self.seconds as u32 * 1000
            + self.milliseconds as u32
    }

    /// Appends the `hh:mm:ss,mmm` rendering onto `out`.
    pub fn push_display(&self, out: &mut Vec<char>)
        ensures
            final(out)@ == old(out)@ + spec_display(*self),
    {
        push_decimal_w2(out, self.hours);
        out.push(':');
        push_decimal_w2(out, self.minutes);
        out.push(':');
        push_decimal_w2(out, self.seconds);
        out.push(',');
        push_decimal_w3(out, self.milliseconds);
        assert(final(out)@ =~= old(out)@ + spec_display(*self));
    }
}

/// One timed subtitle cue.
#[derive(Debug, PartialEq, Eq, Hash)]
pub struct Subtitle {
    /// The numeric counter the cue carries in its SRT source.
    pub num: usize,
    /// When the cue appears.
    pub start_time: Timestamp,
    /// When the cue disappears.
    pub end_time: Timestamp,
    /// The cue's text.
    pub text: String,
}

/// The mathematical value of a [`Subtitle`].
pub struct CueView {
    pub num: usize,
    pub start_time: Timestamp,
    pub end_time: Timestamp,
    pub text: Seq<char>,
}

impl Clone for Subtitle {
    /// Cloning keeps every field.
    fn clone(&self) -> (r: Self)
        ensures
            r == *self,
    {
        Subtitle {
            num: self.num,
            start_time: self.start_time,
            end_time: self.end_time,
            text: self.text.clone(),
        }
    }
}

impl View for Subtitle {
    type V = CueView;

    open spec fn view(&self) -> CueView {
        CueView {
            num: self.num,
            start_time: self.start_time,
            end_time: self.end_time,
            text: self.text@,
        }
    }
}

/// The values of a run of cues.
pub open spec fn cues_view(s: Seq<Subtitle>) -> Seq<CueView> {
    s.map_values(|c: Subtitle| c@)
}

/// How an identifying string is going to be used, which decides how much of
/// the cue text and the video path it keeps.
#[derive(Clone, Copy, Debug, PartialEq, Eq, Structural)]
pub enum SubtitleStringFormatOptions {
    /// The string becomes a filename: text and path are truncated so the
    /// name stays within a filesystem's limits.
    Filename,
    /// The string is shown to a person: full text, full precision.
    Full,
}

impl Default for SubtitleStringFormatOptions {
    /// Display use is the default.
    fn default() -> (r: Self)
        ensures
            r == SubtitleStringFormatOptions::Full,
    {
        SubtitleStringFormatOptions::Full
    }
}

/// How many characters of the cue text an identifying string keeps.
pub open spec fn spec_text_limit(opts: SubtitleStringFormatOptions) -> nat {
    if opts is Filename {
        crate::CLIP_FILENAME_TEXT_LEN as nat
    } else {
        usize::MAX as nat
    }
}

/// How many characters of the video path an identifying string keeps.
pub open spec fn spec_path_limit(opts: SubtitleStringFormatOptions) -> nat {
    if opts is Filename {
        crate::CLIP_FILENAME_PATH_LEN as nat
    } else {
        usize::MAX as nat
    }
}

/// The identifying string of a cue within the video at `path`:
/// `text [start-timestamp] (path)`, truncated according to `opts` and
/// escaped for use as a filename.
pub open spec fn spec_identifying_string(
    cue: CueView,
    path: Seq<char>,
    opts: SubtitleStringFormatOptions,
) -> Seq<char> {
    escape_spec(
        take_chars(cue.text, spec_text_limit(opts)) + seq![' ', '['] + spec_display(cue.start_time)
            + seq![']', ' ', '('] + take_chars(path, spec_path_limit(opts)) + seq![')'],
    )
}

impl Subtitle {
    /// Renders the cue's identifying string for the video at `path`.
    pub fn as_identifying_string(
        &self,
        path: &str,
        format_opts: SubtitleStringFormatOptions,
    ) -> (r: String)
        ensures
            r@ == spec_identifying_string(self@, path@, format_opts),
    {
        let text_limit: usize = match format_opts {
            SubtitleStringFormatOptions::Filename => crate::CLIP_FILENAME_TEXT_LEN,
            SubtitleStringFormatOptions::Full => usize::MAX,
        };
        let path_limit: usize = match format_opts {
            SubtitleStringFormatOptions::Filename => crate::CLIP_FILENAME_PATH_LEN,
            SubtitleStringFormatOptions::Full => usize::MAX,
        };
        let text_chars = util::chars_of(self.text.as_str());
        let path_chars = util::chars_of(path);
        let mut inner: Vec<char> = Vec::new();
        util::push_truncated(&mut inner, &text_chars, text_limit);
        inner.push(' ');
        inner.push('[');
        self.start_time.push_display(&mut inner);
        inner.push(']');
        inner.push(' ');
        inner.push('(');
        util::push_truncated(&mut inner, &path_chars, path_limit);
        inner.push(')');
        assert(inner@ =~= take_chars(self@.text, spec_text_limit(format_opts)) + seq![' ', '[']
            + spec_display(self@.start_time) + seq![']', ' ', '('] + take_chars(
            path@,
            spec_path_limit(format_opts),
        ) + seq![')']);
        let escaped = escape_vec(&inner);
        util::string_of(&escaped)
    }
}

/// Why a run of SRT text could not be parsed.
#[derive(Debug)]
pub struct ParseError {
    /// The parser's diagnostic.
    pub message: String,
}

impl Clone for ParseError {
    /// Cloning keeps the diagnostic.
    fn clone(&self) -> (r: Self)
        ensures
            r == *self,
    {
        ParseError { message: self.message.clone() }
    }
}

/// What parsing a run of SRT text yields: the cues in order, or nothing when
/// the text is not well-formed SRT. The result is a function of the text
/// alone.
pub uninterp spec fn srt_cues_of(s: Seq<char>) -> Option<Seq<CueView>>;

/// Parses a run of SRT text into cues.
///
/// Relies on srtlib's `Subtitles::parse_from_str`: it is a pure function of
/// the input text, returning the file's cues in order or a parse error.
#[verifier::external_body]
pub fn parse_subtitles(content: &str) -> (r: Result<Vec<Subtitle>, ParseError>)
    ensures
        match r {
            Ok(cues) => srt_cues_of(content@) == Some(cues_view(cues@)),
            Err(_) => srt_cues_of(content@) is None,
        },
{
    match srtlib::Subtitles::parse_from_str(content.to_string()) {
        Ok(subs) => Ok(subs.to_vec().into_iter().map(|c| {
            let (sh, sm, ss, sms) = c.start_time.get();
            let (eh, em, es, ems) = c.end_time.get();
            Subtitle { num: c.num, start_time: Timestamp::new(sh, sm, ss, sms), end_time: Timestamp::new(eh, em, es, ems), text: c.text }
        }).collect()),
        Err(e) => Err(ParseError { message: format!("{e}") }),
    }
}

} // verus!
