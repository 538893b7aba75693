//! The store's on-disk format, and the proof that it round-trips.
//!
//! The format is a plain character stream: every number is written as a
//! fixed run of twenty decimal digits (zero padded), strings are written
//! as a digit run holding their length followed by their characters, and
//! records and lists are concatenations of their parts. A schema tag
//! opens the stream; any other tag is a fatal error with no migration
//! path. Decoding is verified to invert encoding exactly, so persisting a
//! store and reloading it yields the same entries in the same order.

use vstd::prelude::*;

use crate::db::{
    pairs_view, unique_keys, Entry, EntryView, Key, Metadata, SubDB, SubPath, SubPathView,
};
use crate::sub::{cues_view, CueView, Subtitle, Timestamp};
use crate::util;
use crate::util::digit_char;

verus! {

/// Powers of ten.
pub open spec fn pow10(w: nat) -> int
    decreases w,
{
    if w == 0 {
        1
    } else {
        10 * pow10((w - 1) as nat)
    }
}

/// Twenty digits cover every unsigned 64-bit value.
proof fn lemma_pow10_20()
    ensures
        pow10(20) == 0x56bc75e2d63100000,
{
    assert(pow10(0) == 1);
    assert(pow10(1) == 10);
    assert(pow10(2) == 100);
    assert(pow10(3) == 1000);
    assert(pow10(4) == 10000);
    assert(pow10(5) == 100000);
    assert(pow10(6) == 1000000);
    assert(pow10(7) == 10000000);
    assert(pow10(8) == 100000000);
    assert(pow10(9) == 1000000000);
    assert(pow10(10) == 10000000000);
    assert(pow10(11) == 100000000000);
    assert(pow10(12) == 1000000000000);
    assert(pow10(13) == 10000000000000);
    assert(pow10(14) == 100000000000000);
    assert(pow10(15) == 1000000000000000);
    assert(pow10(16) == 10000000000000000);
    assert(pow10(17) == 100000000000000000);
    assert(pow10(18) == 1000000000000000000);
    assert(pow10(19) == 10000000000000000000);
    assert(pow10(20) == 100000000000000000000);
}

/// Whether a character is a decimal digit.
pub open spec fn is_digit(c: char) -> bool {
    c == '0' || c == '1' || c == '2' || c == '3' || c == '4' || c == '5' || c == '6' || c == '7'
        || c == '8' || c == '9'
}

/// The value of a digit character.
pub open spec fn digit_val(c: char) -> int {
    if c == '0' {
        0
    } else if c == '1' {
        1
    } else if c == '2' {
        2
    } else if c == '3' {
        3
    } else if c == '4' {
        4
    } else if c == '5' {
        5
    } else if c == '6' {
        6
    } else if c == '7' {
        7
    } else if c == '8' {
        8
    } else {
        9
    }
}

/// The number of digits used for every encoded integer.
pub const NUM_WIDTH: usize = 20;

/// `n` as exactly `w` decimal digits, zero padded, most significant
/// first.
pub open spec fn spec_enc_fixed(n: int, w: nat) -> Seq<char>
    decreases w,
{
    if w == 0 {
        Seq::empty()
    } else {
        spec_enc_fixed(n / 10, (w - 1) as nat).push(digit_char(n % 10))
    }
}

/// The value of the `w` digit characters at `pos`, or nothing when a
/// character is not a digit, the input is too short, or the value leaves
/// the unsigned 64-bit range. (Defined over the final digit so that it
/// mirrors [`spec_enc_fixed`].)
pub open spec fn spec_dec_fixed(s: Seq<char>, pos: int, w: nat) -> Option<int>
    decreases w,
{
    if w == 0 {
        Some(0)
    } else {
        match spec_dec_fixed(s, pos, (w - 1) as nat) {
            None => None,
            Some(v) => {
                let at = pos + w - 1;
                if !(0 <= at < s.len()) {
                    None
                } else if !is_digit(s[at]) {
                    None
                } else if v * 10 + digit_val(s[at]) > u64::MAX {
                    None
                } else {
                    Some(v * 10 + digit_val(s[at]))
                }
            },
        }
    }
}

/// Once decoding a digit run has failed on a prefix, any wider run at
/// the same position fails too.
proof fn lemma_dec_fixed_fail(s: Seq<char>, pos: int, k: nat, w: nat)
    requires
        k <= w,
        spec_dec_fixed(s, pos, k) is None,
    ensures
        spec_dec_fixed(s, pos, w) is None,
    decreases w,
{
    if w > k {
        lemma_dec_fixed_fail(s, pos, k, (w - 1) as nat);
    }
}

/// A fixed digit run has its width.
proof fn lemma_enc_fixed_len(n: int, w: nat)
    ensures
        spec_enc_fixed(n, w).len() == w,
    decreases w,
{
    if w != 0 {
        lemma_enc_fixed_len(n / 10, (w - 1) as nat);
    }
}

/// Decoding a fixed digit run recovers the encoded value: when the `w`
/// characters at `pos` are the encoding of `n`, decoding yields `n`.
proof fn lemma_rt_fixed(s: Seq<char>, pos: int, n: int, w: nat)
    requires
        0 <= n <= u64::MAX,
        n < pow10(w),
        0 <= pos,
        pos + w <= s.len(),
        s.subrange(pos, pos + w) == spec_enc_fixed(n, w),
    ensures
        spec_dec_fixed(s, pos, w) == Some(n),
    decreases w,
{
    lemma_enc_fixed_len(n, w);
    if w == 0 {
        assert(n < 1);
    } else {
        let e = spec_enc_fixed(n, w);
        let e1 = spec_enc_fixed(n / 10, (w - 1) as nat);
        lemma_enc_fixed_len(n / 10, (w - 1) as nat);
        assert(e == e1.push(digit_char(n % 10)));
        assert(s.subrange(pos, pos + w - 1) =~= e1) by {
            assert forall|i: int| 0 <= i < w - 1 implies s.subrange(pos, pos + w - 1)[i]
                == e1[i] by {
                assert(s.subrange(pos, pos + w)[i] == e[i]);
            }
        }
        assert(n / 10 < pow10((w - 1) as nat)) by {
            assert(pow10(w) == 10 * pow10((w - 1) as nat));
        }
        lemma_rt_fixed(s, pos, n / 10, (w - 1) as nat);
        let at = pos + w - 1;
        assert(s[at] == e[w - 1]) by {
            assert(s.subrange(pos, pos + w)[w - 1] == e[w - 1]);
        }
        assert(e[w - 1] == digit_char(n % 10));
        assert(is_digit(digit_char(n % 10)));
        assert(digit_val(digit_char(n % 10)) == n % 10);
        assert((n / 10) * 10 + n % 10 == n) by {
            vstd::arithmetic::div_mod::lemma_fundamental_div_mod(n, 10);
        }
    }
}

/// Appends the twenty-digit encoding of `n`.
fn push_fixed(out: &mut Vec<char>, n: u64, w: usize)
    ensures
        final(out)@ == old(out)@ + spec_enc_fixed(n as int, w as nat),
    decreases w,
{
    if w == 0 {
        assert(final(out)@ =~= old(out)@ + spec_enc_fixed(n as int, 0));
        return ;
    }
    push_fixed(out, n / 10, w - 1);
    out.push(util::digit((n % 10) as u32));
    assert(final(out)@ =~= old(out)@ + spec_enc_fixed(n as int, w as nat));
}

/// Reads the `w`-digit value at `pos`.
fn dec_fixed(s: &Vec<char>, pos: usize, w: usize) -> (r: Option<(u64, usize)>)
    requires
        pos <= s@.len(),
    ensures
        match r {
            Some(p) => spec_dec_fixed(s@, pos as int, w as nat) == Some(p.0 as int) && p.1 == pos
                + w && p.1 <= s@.len(),
            None => spec_dec_fixed(s@, pos as int, w as nat) is None,
        },
{
    let n: usize = s.len();
    if n - pos < w {
        proof {
            if spec_dec_fixed(s@, pos as int, w as nat) is Some {
                assert(w > 0);
                assert(!(0 <= pos + w - 1 < s@.len()));
            }
        }
        return None;
    }
    let mut acc: u64 = 0;
    let mut k: usize = 0;
    while k < w
        invariant
            k <= w,
            n == s@.len(),
            pos + w <= n,
            spec_dec_fixed(s@, pos as int, k as nat) == Some(acc as int),
        decreases w - k,
    {
        let c = s[pos + k];
        let d: u64 = if c == '0' {
            0
        } else if c == '1' {
            1
        } else if c == '2' {
            2
        } else if c == '3' {
            3
        } else if c == '4' {
            4
        } else if c == '5' {
            5
        } else if c == '6' {
            6
        } else if c == '7' {
            7
        } else if c == '8' {
            8
        } else if c == '9' {
            9
        } else {
            proof {
                assert(!is_digit(s@[pos + k as int]));
                assert(spec_dec_fixed(s@, pos as int, (k + 1) as nat) is None);
                lemma_dec_fixed_fail(s@, pos as int, (k + 1) as nat, w as nat);
            }
            return None;
        };
        assert(is_digit(s@[pos + k as int]) && digit_val(s@[pos + k as int]) == d as int);
        let next = match acc.checked_mul(10) {
            Some(t) => t.checked_add(d),
            None => None,
        };
        match next {
            Some(v) => {
                acc = v;
            },
            None => {
                proof {
                    assert(acc * 10 + digit_val(s@[pos + k as int]) > u64::MAX);
                    assert(spec_dec_fixed(s@, pos as int, (k + 1) as nat) is None);
                    lemma_dec_fixed_fail(s@, pos as int, (k + 1) as nat, w as nat);
                }
                return None;
            },
        }
        k = k + 1;
    }
    Some((acc, pos + w))
}

/// A string: its length as a digit run, then its characters.
pub open spec fn spec_enc_string(t: Seq<char>) -> Seq<char> {
    spec_enc_fixed(t.len() as int, NUM_WIDTH as nat) + t
}

/// Decodes a string at `pos`.
pub open spec fn spec_dec_string(s: Seq<char>, pos: int) -> Option<(Seq<char>, int)> {
    match spec_dec_fixed(s, pos, NUM_WIDTH as nat) {
        None => None,
        Some(len) => {
            let start = pos + NUM_WIDTH;
            if start + len <= s.len() {
                Some((s.subrange(start, start + len), start + len))
            } else {
                None
            }
        },
    }
}

/// Encoded strings decode to themselves.
proof fn lemma_rt_string(s: Seq<char>, pos: int, t: Seq<char>)
    requires
        0 <= pos,
        t.len() <= u64::MAX,
        pos + spec_enc_string(t).len() <= s.len(),
        s.subrange(pos, pos + spec_enc_string(t).len() as int) == spec_enc_string(t),
    ensures
        spec_dec_string(s, pos) == Some((t, pos + spec_enc_string(t).len() as int)),
{
    let e = spec_enc_string(t);
    lemma_enc_fixed_len(t.len() as int, NUM_WIDTH as nat);
    assert(e.len() == NUM_WIDTH + t.len());
    assert(s.subrange(pos, pos + NUM_WIDTH) =~= spec_enc_fixed(
        t.len() as int,
        NUM_WIDTH as nat,
    )) by {
        assert forall|i: int| 0 <= i < NUM_WIDTH implies s.subrange(pos, pos + NUM_WIDTH)[i]
            == spec_enc_fixed(t.len() as int, NUM_WIDTH as nat)[i] by {
            assert(s.subrange(pos, pos + e.len() as int)[i] == e[i]);
        }
    }
    assert(t.len() < pow10(NUM_WIDTH as nat)) by {
        lemma_pow10_20();
    }
    lemma_rt_fixed(s, pos, t.len() as int, NUM_WIDTH as nat);
    let start = pos + NUM_WIDTH;
    assert(s.subrange(start, start + t.len() as int) =~= t) by {
        assert forall|i: int| 0 <= i < t.len() implies s.subrange(
            start,
            start + t.len() as int,
        )[i] == t[i] by {
            assert(s.subrange(pos, pos + e.len() as int)[NUM_WIDTH + i] == e[NUM_WIDTH + i]);
            assert(e[NUM_WIDTH + i] == t[i]);
        }
    }
}

/// Appends the encoding of a string.
fn push_string(out: &mut Vec<char>, t: &Vec<char>)
    ensures
        final(out)@ == old(out)@ + spec_enc_string(t@),
{
    push_fixed(out, t.len() as u64, NUM_WIDTH);
    let mut i: usize = 0;
    while i < t.len()
        invariant
            i <= t@.len(),
            out@ == old(out)@ + spec_enc_fixed(t@.len() as int, NUM_WIDTH as nat) + t@.take(
                i as int,
            ),
        decreases t@.len() - i,
    {
        out.push(t[i]);
        assert(t@.take(i + 1 as int) =~= t@.take(i as int).push(t@[i as int]));
        assert(out@ =~= old(out)@ + spec_enc_fixed(t@.len() as int, NUM_WIDTH as nat) + t@.take(
            i + 1 as int,
        ));
        i = i + 1;
    }
    assert(t@.take(t@.len() as int) =~= t@);
    assert(final(out)@ =~= old(out)@ + spec_enc_string(t@));
}

/// Reads a string at `pos`.
fn dec_string(s: &Vec<char>, pos: usize) -> (r: Option<(Vec<char>, usize)>)
    requires
        pos <= s@.len(),
    ensures
        match r {
            Some(p) => spec_dec_string(s@, pos as int) == Some((p.0@, p.1 as int)) && p.1
                <= s@.len(),
            None => spec_dec_string(s@, pos as int) is None,
        },
{
    let (len, start) = match dec_fixed(s, pos, NUM_WIDTH) {
        None => {
            return None;
        },
        Some(p) => p,
    };
    if len > (s.len() - start) as u64 {
        return None;
    }
    let len_us: usize = len as usize;
    let n: usize = s.len();
    let mut t: Vec<char> = Vec::new();
    let mut i: usize = 0;
    while i < len_us
        invariant
            i <= len_us,
            n == s@.len(),
            start + len_us <= n,
            t@ == s@.subrange(start as int, start as int + i as int),
        decreases len_us - i,
    {
        t.push(s[start + i]);
        assert(t@ =~= s@.subrange(start as int, start as int + i + 1 as int));
        i = i + 1;
    }
    Some((t, start + len_us))
}

/// A signed 64-bit value: a sign tag, then the magnitude (negative values
/// are stored as the magnitude of their successor, so the least value
/// needs no special case).
pub open spec fn spec_enc_i64(v: i64) -> Seq<char> {
    if v >= 0 {
        seq!['0'] + spec_enc_fixed(v as int, NUM_WIDTH as nat)
    } else {
        seq!['1'] + spec_enc_fixed(-(v + 1), NUM_WIDTH as nat)
    }
}

/// Decodes a signed 64-bit value at `pos`.
pub open spec fn spec_dec_i64(s: Seq<char>, pos: int) -> Option<(i64, int)> {
    if !(0 <= pos < s.len()) {
        None
    } else if s[pos] == '0' {
        match spec_dec_fixed(s, pos + 1, NUM_WIDTH as nat) {
            None => None,
            Some(v) => if v <= i64::MAX {
                Some((v as i64, pos + 1 + NUM_WIDTH))
            } else {
                None
            },
        }
    } else if s[pos] == '1' {
        match spec_dec_fixed(s, pos + 1, NUM_WIDTH as nat) {
            None => None,
            Some(v) => if v <= i64::MAX {
                Some(((-v - 1) as i64, pos + 1 + NUM_WIDTH))
            } else {
                None
            },
        }
    } else {
        None
    }
}

/// Encoded signed values decode to themselves.
proof fn lemma_rt_i64(s: Seq<char>, pos: int, v: i64)
    requires
        0 <= pos,
        pos + spec_enc_i64(v).len() <= s.len(),
        s.subrange(pos, pos + spec_enc_i64(v).len() as int) == spec_enc_i64(v),
    ensures
        spec_dec_i64(s, pos) == Some((v, pos + spec_enc_i64(v).len() as int)),
{
    let e = spec_enc_i64(v);
    let mag = if v >= 0 {
        v as int
    } else {
        -(v + 1)
    };
    lemma_enc_fixed_len(mag, NUM_WIDTH as nat);
    assert(e.len() == 1 + NUM_WIDTH);
    assert(s[pos] == e[0]) by {
        assert(s.subrange(pos, pos + e.len() as int)[0] == e[0]);
    }
    assert(s.subrange(pos + 1, pos + 1 + NUM_WIDTH) =~= spec_enc_fixed(
        mag,
        NUM_WIDTH as nat,
    )) by {
        assert forall|i: int| 0 <= i < NUM_WIDTH implies s.subrange(
            pos + 1,
            pos + 1 + NUM_WIDTH,
        )[i] == spec_enc_fixed(mag, NUM_WIDTH as nat)[i] by {
            assert(s.subrange(pos, pos + e.len() as int)[1 + i] == e[1 + i]);
        }
    }
    assert(mag < pow10(NUM_WIDTH as nat)) by {
        lemma_pow10_20();
    }
    lemma_rt_fixed(s, pos + 1, mag, NUM_WIDTH as nat);
}

/// Appends the encoding of a signed 64-bit value.
fn push_i64(out: &mut Vec<char>, v: i64)
    ensures
        final(out)@ == old(out)@ + spec_enc_i64(v),
{
    if v >= 0 {
        out.push('0');
        push_fixed(out, v as u64, NUM_WIDTH);
    } else {
        out.push('1');
        let mag: i64 = -(v + 1);
        push_fixed(out, mag as u64, NUM_WIDTH);
    }
    assert(final(out)@ =~= old(out)@ + spec_enc_i64(v));
}

/// Reads a signed 64-bit value at `pos`.
fn dec_i64(s: &Vec<char>, pos: usize) -> (r: Option<(i64, usize)>)
    requires
        pos <= s@.len(),
    ensures
        match r {
            Some(p) => spec_dec_i64(s@, pos as int) == Some((p.0, p.1 as int)) && p.1 <= s@.len(),
            None => spec_dec_i64(s@, pos as int) is None,
        },
{
    if pos == s.len() {
        return None;
    }
    let tag = s[pos];
    if tag == '0' {
        match dec_fixed(s, pos + 1, NUM_WIDTH) {
            None => None,
            Some((v, p2)) => {
                if v <= i64::MAX as u64 {
                    Some((v as i64, p2))
                } else {
                    None
                }
            },
        }
    } else if tag == '1' {
        match dec_fixed(s, pos + 1, NUM_WIDTH) {
            None => None,
            Some((v, p2)) => {
                if v <= i64::MAX as u64 {
                    let m: i64 = v as i64;
                    Some((-m - 1, p2))
                } else {
                    None
                }
            },
        }
    } else {
        None
    }
}

/// A timestamp: its four parts, each as a digit run.
pub open spec fn spec_enc_ts(t: Timestamp) -> Seq<char> {
    spec_enc_fixed(t.hours as int, NUM_WIDTH as nat) + spec_enc_fixed(
        t.minutes as int,
        NUM_WIDTH as nat,
    ) + spec_enc_fixed(t.seconds as int, NUM_WIDTH as nat) + spec_enc_fixed(
        t.milliseconds as int,
        NUM_WIDTH as nat,
    )
}

/// Decodes a timestamp at `pos`.
pub open spec fn spec_dec_ts(s: Seq<char>, pos: int) -> Option<(Timestamp, int)> {
    match spec_dec_fixed(s, pos, NUM_WIDTH as nat) {
        None => None,
        Some(h) => match spec_dec_fixed(s, pos + NUM_WIDTH, NUM_WIDTH as nat) {
            None => None,
            Some(m) => match spec_dec_fixed(s, pos + 2 * NUM_WIDTH, NUM_WIDTH as nat) {
                None => None,
                Some(sec) => match spec_dec_fixed(s, pos + 3 * NUM_WIDTH, NUM_WIDTH as nat) {
                    None => None,
                    Some(ms) => if h <= 255 && m <= 255 && sec <= 255 && ms <= 65535 {
                        Some(
                            (
                                Timestamp {
                                    hours: h as u8,
                                    minutes: m as u8,
                                    seconds: sec as u8,
                                    milliseconds: ms as u16,
                                },
                                pos + 4 * NUM_WIDTH,
                            ),
                        )
                    } else {
                        None
                    },
                },
            },
        },
    }
}

/// Encoded timestamps decode to themselves.
proof fn lemma_rt_ts(s: Seq<char>, pos: int, t: Timestamp)
    requires
        0 <= pos,
        pos + spec_enc_ts(t).len() <= s.len(),
        s.subrange(pos, pos + spec_enc_ts(t).len() as int) == spec_enc_ts(t),
    ensures
        spec_enc_ts(t).len() == 4 * NUM_WIDTH,
        spec_dec_ts(s, pos) == Some((t, pos + 4 * NUM_WIDTH)),
{
    let e = spec_enc_ts(t);
    let eh = spec_enc_fixed(t.hours as int, NUM_WIDTH as nat);
    let em = spec_enc_fixed(t.minutes as int, NUM_WIDTH as nat);
    let es = spec_enc_fixed(t.seconds as int, NUM_WIDTH as nat);
    let ems = spec_enc_fixed(t.milliseconds as int, NUM_WIDTH as nat);
    lemma_enc_fixed_len(t.hours as int, NUM_WIDTH as nat);
    lemma_enc_fixed_len(t.minutes as int, NUM_WIDTH as nat);
    lemma_enc_fixed_len(t.seconds as int, NUM_WIDTH as nat);
    lemma_enc_fixed_len(t.milliseconds as int, NUM_WIDTH as nat);
    assert(e.len() == 4 * NUM_WIDTH);
    lemma_pow10_20();
    assert(s.subrange(pos, pos + NUM_WIDTH) =~= eh) by {
        assert forall|i: int| 0 <= i < NUM_WIDTH implies s.subrange(pos, pos + NUM_WIDTH)[i]
            == eh[i] by {
            assert(s.subrange(pos, pos + e.len() as int)[i] == e[i]);
        }
    }
    lemma_rt_fixed(s, pos, t.hours as int, NUM_WIDTH as nat);
    assert(s.subrange(pos + NUM_WIDTH, pos + 2 * NUM_WIDTH) =~= em) by {
        assert forall|i: int| 0 <= i < NUM_WIDTH implies s.subrange(
            pos + NUM_WIDTH,
            pos + 2 * NUM_WIDTH,
        )[i] == em[i] by {
            assert(s.subrange(pos, pos + e.len() as int)[NUM_WIDTH + i] == e[NUM_WIDTH + i]);
        }
    }
    lemma_rt_fixed(s, pos + NUM_WIDTH, t.minutes as int, NUM_WIDTH as nat);
    assert(s.subrange(pos + 2 * NUM_WIDTH, pos + 3 * NUM_WIDTH) =~= es) by {
        assert forall|i: int| 0 <= i < NUM_WIDTH implies s.subrange(
            pos + 2 * NUM_WIDTH,
            pos + 3 * NUM_WIDTH,
        )[i] == es[i] by {
            assert(s.subrange(pos, pos + e.len() as int)[2 * NUM_WIDTH + i] == e[2 * NUM_WIDTH
                + i]);
        }
    }
    lemma_rt_fixed(s, pos + 2 * NUM_WIDTH, t.seconds as int, NUM_WIDTH as nat);
    assert(s.subrange(pos + 3 * NUM_WIDTH, pos + 4 * NUM_WIDTH) =~= ems) by {
        assert forall|i: int| 0 <= i < NUM_WIDTH implies s.subrange(
            pos + 3 * NUM_WIDTH,
            pos + 4 * NUM_WIDTH,
        )[i] == ems[i] by {
            assert(s.subrange(pos, pos + e.len() as int)[3 * NUM_WIDTH + i] == e[3 * NUM_WIDTH
                + i]);
        }
    }
    lemma_rt_fixed(s, pos + 3 * NUM_WIDTH, t.milliseconds as int, NUM_WIDTH as nat);
}

/// Appends the encoding of a timestamp.
fn push_ts(out: &mut Vec<char>, t: Timestamp)
    ensures
        final(out)@ == old(out)@ + spec_enc_ts(t),
{
    push_fixed(out, t.hours as u64, NUM_WIDTH);
    push_fixed(out, t.minutes as u64, NUM_WIDTH);
    push_fixed(out, t.seconds as u64, NUM_WIDTH);
    push_fixed(out, t.milliseconds as u64, NUM_WIDTH);
    assert(final(out)@ =~= old(out)@ + spec_enc_ts(t));
}

/// Reads a timestamp at `pos`.
fn dec_ts(s: &Vec<char>, pos: usize) -> (r: Option<(Timestamp, usize)>)
    requires
        pos <= s@.len(),
    ensures
        match r {
            Some(p) => spec_dec_ts(s@, pos as int) == Some((p.0, p.1 as int)) && p.1 <= s@.len(),
            None => spec_dec_ts(s@, pos as int) is None,
        },
{
    let (h, p1) = match dec_fixed(s, pos, NUM_WIDTH) {
        None => {
            return None;
        },
        Some(p) => p,
    };
    let (m, p2) = match dec_fixed(s, p1, NUM_WIDTH) {
        None => {
            return None;
        },
        Some(p) => p,
    };
    let (sec, p3) = match dec_fixed(s, p2, NUM_WIDTH) {
        None => {
            return None;
        },
        Some(p) => p,
    };
    let (ms, p4) = match dec_fixed(s, p3, NUM_WIDTH) {
        None => {
            return None;
        },
        Some(p) => p,
    };
    if h <= 255 && m <= 255 && sec <= 255 && ms <= 65535 {
        Some(
            (
                Timestamp {
                    hours: h as u8,
                    minutes: m as u8,
                    seconds: sec as u8,
                    milliseconds: ms as u16,
                },
                p4,
            ),
        )
    } else {
        None
    }
}

/// Splitting a known concatenation at a component boundary.
proof fn lemma_split2(s: Seq<char>, pos: int, a: Seq<char>, b: Seq<char>)
    requires
        0 <= pos,
        pos + a.len() + b.len() <= s.len(),
        s.subrange(pos, pos + a.len() + b.len()) == a + b,
    ensures
        s.subrange(pos, pos + a.len() as int) == a,
        s.subrange(pos + a.len() as int, pos + a.len() + b.len()) == b,
{
    let e = a + b;
    assert(s.subrange(pos, pos + a.len() as int) =~= a) by {
        assert forall|i: int| 0 <= i < a.len() implies s.subrange(pos, pos + a.len() as int)[i]
            == a[i] by {
            assert(s.subrange(pos, pos + e.len() as int)[i] == e[i]);
        }
    }
    assert(s.subrange(pos + a.len() as int, pos + a.len() + b.len()) =~= b) by {
        assert forall|i: int| 0 <= i < b.len() implies s.subrange(
            pos + a.len() as int,
            pos + a.len() + b.len(),
        )[i] == b[i] by {
            assert(s.subrange(pos, pos + e.len() as int)[a.len() + i] == e[a.len() + i]);
        }
    }
}

/// One cue: its number, its two timestamps, then its text.
pub open spec fn spec_enc_cue(c: CueView) -> Seq<char> {
    spec_enc_fixed(c.num as int, NUM_WIDTH as nat) + spec_enc_ts(c.start_time) + spec_enc_ts(
        c.end_time,
    ) + spec_enc_string(c.text)
}

/// Decodes one cue at `pos`.
pub open spec fn spec_dec_cue(s: Seq<char>, pos: int) -> Option<(CueView, int)> {
    match spec_dec_fixed(s, pos, NUM_WIDTH as nat) {
        None => None,
        Some(num) => if num > usize::MAX {
            None
        } else {
            match spec_dec_ts(s, pos + NUM_WIDTH) {
                None => None,
                Some((start, p2)) => match spec_dec_ts(s, p2) {
                    None => None,
                    Some((end, p3)) => match spec_dec_string(s, p3) {
                        None => None,
                        Some((text, p4)) => Some(
                            (
                                CueView {
                                    num: num as usize,
                                    start_time: start,
                                    end_time: end,
                                    text,
                                },
                                p4,
                            ),
                        ),
                    },
                },
            }
        },
    }
}

/// Whether a cue's text fits the length field.
pub open spec fn cue_encodable(c: CueView) -> bool {
    c.text.len() <= u64::MAX
}

/// Encoded cues decode to themselves.
proof fn lemma_rt_cue(s: Seq<char>, pos: int, c: CueView)
    requires
        cue_encodable(c),
        0 <= pos,
        pos + spec_enc_cue(c).len() <= s.len(),
        s.subrange(pos, pos + spec_enc_cue(c).len() as int) == spec_enc_cue(c),
    ensures
        spec_dec_cue(s, pos) == Some((c, pos + spec_enc_cue(c).len() as int)),
{
    let w1 = spec_enc_fixed(c.num as int, NUM_WIDTH as nat);
    let w2 = spec_enc_ts(c.start_time);
    let w3 = spec_enc_ts(c.end_time);
    let w4 = spec_enc_string(c.text);
    let e = spec_enc_cue(c);
    lemma_enc_fixed_len(c.num as int, NUM_WIDTH as nat);
    assert(e =~= w1 + (w2 + (w3 + w4)));
    lemma_split2(s, pos, w1, w2 + (w3 + w4));
    let p1 = pos + w1.len() as int;
    assert(w2 + (w3 + w4) =~= w2 + (w3 + w4));
    lemma_split2(s, p1, w2, w3 + w4);
    let p2 = p1 + w2.len() as int;
    lemma_split2(s, p2, w3, w4);
    let p3 = p2 + w3.len() as int;
    lemma_pow10_20();
    lemma_rt_fixed(s, pos, c.num as int, NUM_WIDTH as nat);
    lemma_rt_ts(s, p1, c.start_time);
    lemma_rt_ts(s, p2, c.end_time);
    lemma_rt_string(s, p3, c.text);
}

/// A run of cues, one after another.
pub open spec fn spec_enc_cue_items(cs: Seq<CueView>) -> Seq<char>
    decreases cs.len(),
{
    if cs.len() == 0 {
        Seq::empty()
    } else {
        spec_enc_cue(cs[0]) + spec_enc_cue_items(cs.skip(1))
    }
}

/// Decodes `count` cues at `pos`.
pub open spec fn spec_dec_cue_items(s: Seq<char>, pos: int, count: nat) -> Option<
    (Seq<CueView>, int),
>
    decreases count,
{
    if count == 0 {
        Some((Seq::empty(), pos))
    } else {
        match spec_dec_cue(s, pos) {
            None => None,
            Some((c, p2)) => match spec_dec_cue_items(s, p2, (count - 1) as nat) {
                None => None,
                Some((rest, p3)) => Some((seq![c] + rest, p3)),
            },
        }
    }
}

/// Whether every cue of a run is encodable.
pub open spec fn cues_encodable(cs: Seq<CueView>) -> bool {
    forall|i: int| 0 <= i < cs.len() ==> cue_encodable(#[trigger] cs[i])
}

/// Encoded cue runs decode to themselves.
proof fn lemma_rt_cue_items(s: Seq<char>, pos: int, cs: Seq<CueView>)
    requires
        cues_encodable(cs),
        0 <= pos,
        pos + spec_enc_cue_items(cs).len() <= s.len(),
        s.subrange(pos, pos + spec_enc_cue_items(cs).len() as int) == spec_enc_cue_items(cs),
    ensures
        spec_dec_cue_items(s, pos, cs.len()) == Some(
            (cs, pos + spec_enc_cue_items(cs).len() as int),
        ),
    decreases cs.len(),
{
    if cs.len() == 0 {
        assert(spec_dec_cue_items(s, pos, 0) == Some((Seq::<CueView>::empty(), pos)));
        assert(cs =~= Seq::<CueView>::empty());
    } else {
        let a = spec_enc_cue(cs[0]);
        let b = spec_enc_cue_items(cs.skip(1));
        lemma_split2(s, pos, a, b);
        lemma_rt_cue(s, pos, cs[0]);
        assert(cues_encodable(cs.skip(1))) by {
            assert forall|i: int| 0 <= i < cs.skip(1).len() implies cue_encodable(
                #[trigger] cs.skip(1)[i],
            ) by {
                assert(cs.skip(1)[i] == cs[i + 1]);
            }
        }
        lemma_rt_cue_items(s, pos + a.len() as int, cs.skip(1));
        assert(seq![cs[0]] + cs.skip(1) =~= cs);
    }
}

/// A subtitle source: a tag, then either the stream number or the
/// sidecar path.
pub open spec fn spec_enc_subpath(p: SubPathView) -> Seq<char> {
    match p {
        SubPathView::InternalFFmpeg { stream_id } => seq!['0'] + spec_enc_fixed(
            stream_id,
            NUM_WIDTH as nat,
        ),
        SubPathView::External { path } => seq!['1'] + spec_enc_string(path),
    }
}

/// Decodes a subtitle source tag at `pos`.
pub open spec fn spec_dec_subpath(s: Seq<char>, pos: int) -> Option<(SubPathView, int)> {
    if !(0 <= pos < s.len()) {
        None
    } else if s[pos] == '0' {
        match spec_dec_fixed(s, pos + 1, NUM_WIDTH as nat) {
            None => None,
            Some(v) => if v <= usize::MAX {
                Some((SubPathView::InternalFFmpeg { stream_id: v }, pos + 1 + NUM_WIDTH))
            } else {
                None
            },
        }
    } else if s[pos] == '1' {
        match spec_dec_string(s, pos + 1) {
            None => None,
            Some((path, p2)) => Some((SubPathView::External { path }, p2)),
        }
    } else {
        None
    }
}

/// Whether a source's fields fit their encodings.
pub open spec fn subpath_encodable(p: SubPathView) -> bool {
    match p {
        SubPathView::InternalFFmpeg { stream_id } => 0 <= stream_id <= usize::MAX,
        SubPathView::External { path } => path.len() <= u64::MAX,
    }
}

/// Encoded sources decode to themselves.
proof fn lemma_rt_subpath(s: Seq<char>, pos: int, p: SubPathView)
    requires
        subpath_encodable(p),
        0 <= pos,
        pos + spec_enc_subpath(p).len() <= s.len(),
        s.subrange(pos, pos + spec_enc_subpath(p).len() as int) == spec_enc_subpath(p),
    ensures
        spec_dec_subpath(s, pos) == Some((p, pos + spec_enc_subpath(p).len() as int)),
{
    let e = spec_enc_subpath(p);
    match p {
        SubPathView::InternalFFmpeg { stream_id } => {
            let w = spec_enc_fixed(stream_id, NUM_WIDTH as nat);
            lemma_enc_fixed_len(stream_id, NUM_WIDTH as nat);
            lemma_split2(s, pos, seq!['0'], w);
            assert(s[pos] == '0') by {
                assert(s.subrange(pos, pos + 1)[0] == seq!['0'][0]);
            }
            lemma_pow10_20();
            lemma_rt_fixed(s, pos + 1, stream_id, NUM_WIDTH as nat);
        },
        SubPathView::External { path } => {
            let w = spec_enc_string(path);
            lemma_split2(s, pos, seq!['1'], w);
            assert(s[pos] == '1') by {
                assert(s.subrange(pos, pos + 1)[0] == seq!['1'][0]);
            }
            lemma_rt_string(s, pos + 1, path);
        },
    }
}

/// One source with its cues: the source, the cue count, the cues.
pub open spec fn spec_enc_source(src: (SubPathView, Seq<CueView>)) -> Seq<char> {
    spec_enc_subpath(src.0) + spec_enc_fixed(src.1.len() as int, NUM_WIDTH as nat)
        + spec_enc_cue_items(src.1)
}

/// Decodes one source with its cues at `pos`.
pub open spec fn spec_dec_source(s: Seq<char>, pos: int) -> Option<
    ((SubPathView, Seq<CueView>), int),
> {
    match spec_dec_subpath(s, pos) {
        None => None,
        Some((sp, p1)) => match spec_dec_fixed(s, p1, NUM_WIDTH as nat) {
            None => None,
            Some(count) => if count > usize::MAX {
                None
            } else {
                match spec_dec_cue_items(s, p1 + NUM_WIDTH, count as nat) {
                    None => None,
                    Some((cs, p2)) => Some(((sp, cs), p2)),
                }
            },
        },
    }
}

/// Whether a source and its cues fit their encodings.
pub open spec fn source_encodable(src: (SubPathView, Seq<CueView>)) -> bool {
    subpath_encodable(src.0) && src.1.len() <= usize::MAX && cues_encodable(src.1)
}

/// Encoded sources with cues decode to themselves.
proof fn lemma_rt_source(s: Seq<char>, pos: int, src: (SubPathView, Seq<CueView>))
    requires
        source_encodable(src),
        0 <= pos,
        pos + spec_enc_source(src).len() <= s.len(),
        s.subrange(pos, pos + spec_enc_source(src).len() as int) == spec_enc_source(src),
    ensures
        spec_dec_source(s, pos) == Some((src, pos + spec_enc_source(src).len() as int)),
{
    let a = spec_enc_subpath(src.0);
    let b = spec_enc_fixed(src.1.len() as int, NUM_WIDTH as nat);
    let c = spec_enc_cue_items(src.1);
    lemma_enc_fixed_len(src.1.len() as int, NUM_WIDTH as nat);
    assert(spec_enc_source(src) =~= a + (b + c));
    lemma_split2(s, pos, a, b + c);
    lemma_split2(s, pos + a.len() as int, b, c);
    lemma_rt_subpath(s, pos, src.0);
    lemma_pow10_20();
    lemma_rt_fixed(s, pos + a.len() as int, src.1.len() as int, NUM_WIDTH as nat);
    lemma_rt_cue_items(s, pos + a.len() + b.len(), src.1);
}

/// A run of sources, one after another.
pub open spec fn spec_enc_source_items(srcs: Seq<(SubPathView, Seq<CueView>)>) -> Seq<char>
    decreases srcs.len(),
{
    if srcs.len() == 0 {
        Seq::empty()
    } else {
        spec_enc_source(srcs[0]) + spec_enc_source_items(srcs.skip(1))
    }
}

/// Decodes `count` sources at `pos`.
pub open spec fn spec_dec_source_items(s: Seq<char>, pos: int, count: nat) -> Option<
    (Seq<(SubPathView, Seq<CueView>)>, int),
>
    decreases count,
{
    if count == 0 {
        Some((Seq::empty(), pos))
    } else {
        match spec_dec_source(s, pos) {
            None => None,
            Some((src, p2)) => match spec_dec_source_items(s, p2, (count - 1) as nat) {
                None => None,
                Some((rest, p3)) => Some((seq![src] + rest, p3)),
            },
        }
    }
}

/// Whether every source of a run is encodable.
pub open spec fn sources_encodable(srcs: Seq<(SubPathView, Seq<CueView>)>) -> bool {
    forall|i: int| 0 <= i < srcs.len() ==> source_encodable(#[trigger] srcs[i])
}

/// Encoded source runs decode to themselves.
proof fn lemma_rt_source_items(s: Seq<char>, pos: int, srcs: Seq<(SubPathView, Seq<CueView>)>)
    requires
        sources_encodable(srcs),
        0 <= pos,
        pos + spec_enc_source_items(srcs).len() <= s.len(),
        s.subrange(pos, pos + spec_enc_source_items(srcs).len() as int) == spec_enc_source_items(
            srcs,
        ),
    ensures
        spec_dec_source_items(s, pos, srcs.len()) == Some(
            (srcs, pos + spec_enc_source_items(srcs).len() as int),
        ),
    decreases srcs.len(),
{
    if srcs.len() == 0 {
        assert(srcs =~= Seq::<(SubPathView, Seq<CueView>)>::empty());
    } else {
        let a = spec_enc_source(srcs[0]);
        let b = spec_enc_source_items(srcs.skip(1));
        lemma_split2(s, pos, a, b);
        lemma_rt_source(s, pos, srcs[0]);
        assert(sources_encodable(srcs.skip(1))) by {
            assert forall|i: int| 0 <= i < srcs.skip(1).len() implies source_encodable(
                #[trigger] srcs.skip(1)[i],
            ) by {
                assert(srcs.skip(1)[i] == srcs[i + 1]);
            }
        }
        lemma_rt_source_items(s, pos + a.len() as int, srcs.skip(1));
        assert(seq![srcs[0]] + srcs.skip(1) =~= srcs);
    }
}

/// One entry: its video path, its scan time, the source count, the
/// sources.
pub open spec fn spec_enc_entry(e: EntryView) -> Seq<char> {
    spec_enc_string(e.meta.video_path) + spec_enc_i64(e.meta.time) + spec_enc_fixed(
        e.sub_files.len() as int,
        NUM_WIDTH as nat,
    ) + spec_enc_source_items(e.sub_files)
}

/// Decodes one entry at `pos`.
pub open spec fn spec_dec_entry(s: Seq<char>, pos: int) -> Option<(EntryView, int)> {
    match spec_dec_string(s, pos) {
        None => None,
        Some((path, p1)) => match spec_dec_i64(s, p1) {
            None => None,
            Some((time, p2)) => match spec_dec_fixed(s, p2, NUM_WIDTH as nat) {
                None => None,
                Some(count) => if count > usize::MAX {
                    None
                } else {
                    match spec_dec_source_items(s, p2 + NUM_WIDTH, count as nat) {
                        None => None,
                        Some((srcs, p3)) => Some(
                            (
                                EntryView {
                                    meta: crate::db::MetadataView { video_path: path, time },
                                    sub_files: srcs,
                                },
                                p3,
                            ),
                        ),
                    }
                },
            },
        },
    }
}

/// Whether an entry fits its encoding.
pub open spec fn entry_encodable(e: EntryView) -> bool {
    e.meta.video_path.len() <= u64::MAX && e.sub_files.len() <= usize::MAX && sources_encodable(
        e.sub_files,
    )
}

/// Encoded entries decode to themselves.
proof fn lemma_rt_entry(s: Seq<char>, pos: int, e: EntryView)
    requires
        entry_encodable(e),
        0 <= pos,
        pos + spec_enc_entry(e).len() <= s.len(),
        s.subrange(pos, pos + spec_enc_entry(e).len() as int) == spec_enc_entry(e),
    ensures
        spec_dec_entry(s, pos) == Some((e, pos + spec_enc_entry(e).len() as int)),
{
    let a = spec_enc_string(e.meta.video_path);
    let b = spec_enc_i64(e.meta.time);
    let c = spec_enc_fixed(e.sub_files.len() as int, NUM_WIDTH as nat);
    let d = spec_enc_source_items(e.sub_files);
    lemma_enc_fixed_len(e.sub_files.len() as int, NUM_WIDTH as nat);
    assert(spec_enc_entry(e) =~= a + (b + (c + d)));
    lemma_split2(s, pos, a, b + (c + d));
    let p1 = pos + a.len() as int;
    lemma_split2(s, p1, b, c + d);
    let p2 = p1 + b.len() as int;
    lemma_split2(s, p2, c, d);
    let p3 = p2 + c.len() as int;
    lemma_rt_string(s, pos, e.meta.video_path);
    lemma_rt_i64(s, p1, e.meta.time);
    lemma_pow10_20();
    lemma_rt_fixed(s, p2, e.sub_files.len() as int, NUM_WIDTH as nat);
    lemma_rt_source_items(s, p3, e.sub_files);
}


/// One keyed entry: the key's path, then the entry.
pub open spec fn spec_enc_pair(p: (Seq<char>, EntryView)) -> Seq<char> {
    spec_enc_string(p.0) + spec_enc_entry(p.1)
}

/// Decodes one keyed entry at `pos`.
pub open spec fn spec_dec_pair(s: Seq<char>, pos: int) -> Option<((Seq<char>, EntryView), int)> {
    match spec_dec_string(s, pos) {
        None => None,
        Some((k, p1)) => match spec_dec_entry(s, p1) {
            None => None,
            Some((e, p2)) => Some(((k, e), p2)),
        },
    }
}

/// Whether a keyed entry fits its encoding.
pub open spec fn pair_encodable(p: (Seq<char>, EntryView)) -> bool {
    p.0.len() <= u64::MAX && entry_encodable(p.1)
}

/// Encoded keyed entries decode to themselves.
proof fn lemma_rt_pair(s: Seq<char>, pos: int, p: (Seq<char>, EntryView))
    requires
        pair_encodable(p),
        0 <= pos,
        pos + spec_enc_pair(p).len() <= s.len(),
        s.subrange(pos, pos + spec_enc_pair(p).len() as int) == spec_enc_pair(p),
    ensures
        spec_dec_pair(s, pos) == Some((p, pos + spec_enc_pair(p).len() as int)),
{
    let a = spec_enc_string(p.0);
    let b = spec_enc_entry(p.1);
    lemma_split2(s, pos, a, b);
    lemma_rt_string(s, pos, p.0);
    lemma_rt_entry(s, pos + a.len() as int, p.1);
}

/// A run of keyed entries, one after another.
pub open spec fn spec_enc_pair_items(ps: Seq<(Seq<char>, EntryView)>) -> Seq<char>
    decreases ps.len(),
{
    if ps.len() == 0 {
        Seq::empty()
    } else {
        spec_enc_pair(ps[0]) + spec_enc_pair_items(ps.skip(1))
    }
}

/// Decodes `count` keyed entries at `pos`.
pub open spec fn spec_dec_pair_items(s: Seq<char>, pos: int, count: nat) -> Option<
    (Seq<(Seq<char>, EntryView)>, int),
>
    decreases count,
{
    if count == 0 {
        Some((Seq::empty(), pos))
    } else {
        match spec_dec_pair(s, pos) {
            None => None,
            Some((p, p2)) => match spec_dec_pair_items(s, p2, (count - 1) as nat) {
                None => None,
                Some((rest, p3)) => Some((seq![p] + rest, p3)),
            },
        }
    }
}

/// Whether every keyed entry of a run is encodable.
pub open spec fn pairs_encodable(ps: Seq<(Seq<char>, EntryView)>) -> bool {
    ps.len() <= usize::MAX && forall|i: int| 0 <= i < ps.len() ==> pair_encodable(#[trigger] ps[i])
}

/// Encoded runs of keyed entries decode to themselves.
proof fn lemma_rt_pair_items(s: Seq<char>, pos: int, ps: Seq<(Seq<char>, EntryView)>)
    requires
        pairs_encodable(ps),
        0 <= pos,
        pos + spec_enc_pair_items(ps).len() <= s.len(),
        s.subrange(pos, pos + spec_enc_pair_items(ps).len() as int) == spec_enc_pair_items(ps),
    ensures
        spec_dec_pair_items(s, pos, ps.len()) == Some(
            (ps, pos + spec_enc_pair_items(ps).len() as int),
        ),
    decreases ps.len(),
{
    if ps.len() == 0 {
        assert(ps =~= Seq::<(Seq<char>, EntryView)>::empty());
    } else {
        let a = spec_enc_pair(ps[0]);
        let b = spec_enc_pair_items(ps.skip(1));
        lemma_split2(s, pos, a, b);
        lemma_rt_pair(s, pos, ps[0]);
        assert(pairs_encodable(ps.skip(1))) by {
            assert forall|i: int| 0 <= i < ps.skip(1).len() implies pair_encodable(
                #[trigger] ps.skip(1)[i],
            ) by {
                assert(ps.skip(1)[i] == ps[i + 1]);
            }
        }
        lemma_rt_pair_items(s, pos + a.len() as int, ps.skip(1));
        assert(seq![ps[0]] + ps.skip(1) =~= ps);
    }
}

/// The schema tag the current format carries.
pub open spec fn spec_schema_tag() -> Seq<char> {
    seq!['0', '.', '2']
}

/// A whole store: the schema tag, the entry count, then the keyed
/// entries — and nothing after them.
pub open spec fn spec_enc_store(ps: Seq<(Seq<char>, EntryView)>) -> Seq<char> {
    spec_enc_string(spec_schema_tag()) + spec_enc_fixed(ps.len() as int, NUM_WIDTH as nat)
        + spec_enc_pair_items(ps)
}

/// Why a persisted store could not be read back.
#[derive(Clone, Copy, Debug, PartialEq, Eq, Structural)]
pub enum LoadError {
    /// The file carries a schema tag this version does not understand:
    /// fatal, with no migration path.
    UnsupportedSchema,
    /// The file is not a well-formed store serialization.
    Malformed,
}

/// Decodes a whole store. A readable but differently-tagged stream is
/// the unsupported-schema error; everything else that fails to parse, or
/// leaves trailing text, is malformed.
pub open spec fn spec_dec_store(s: Seq<char>) -> Result<Seq<(Seq<char>, EntryView)>, LoadError> {
    match spec_dec_string(s, 0) {
        None => Err(LoadError::Malformed),
        Some((tag, p1)) => if tag != spec_schema_tag() {
            Err(LoadError::UnsupportedSchema)
        } else {
            match spec_dec_fixed(s, p1, NUM_WIDTH as nat) {
                None => Err(LoadError::Malformed),
                Some(count) => if count > usize::MAX {
                    Err(LoadError::Malformed)
                } else {
                    match spec_dec_pair_items(s, p1 + NUM_WIDTH, count as nat) {
                        None => Err(LoadError::Malformed),
                        Some((ps, p2)) => if p2 == s.len() {
                            Ok(ps)
                        } else {
                            Err(LoadError::Malformed)
                        },
                    }
                },
            }
        },
    }
}

/// Round trip: decoding an encoded store yields exactly the entries that
/// were encoded — same keys, same entry contents, same order.
#[verifier::rlimit(100)]
#[verifier::spinoff_prover]
pub proof fn lemma_store_round_trip(ps: Seq<(Seq<char>, EntryView)>)
    requires
        pairs_encodable(ps),
    ensures
        spec_dec_store(spec_enc_store(ps)) == Ok::<Seq<(Seq<char>, EntryView)>, LoadError>(ps),
{
    let s = spec_enc_store(ps);
    let a = spec_enc_string(spec_schema_tag());
    let b = spec_enc_fixed(ps.len() as int, NUM_WIDTH as nat);
    let c = spec_enc_pair_items(ps);
    lemma_enc_fixed_len(ps.len() as int, NUM_WIDTH as nat);
    assert(s =~= a + (b + c));
    assert(s.subrange(0, s.len() as int) =~= s);
    lemma_split2(s, 0, a, b + c);
    let p1 = a.len() as int;
    lemma_split2(s, p1, b, c);
    let p2 = p1 + b.len() as int;
    lemma_rt_string(s, 0, spec_schema_tag());
    lemma_pow10_20();
    lemma_rt_fixed(s, p1, ps.len() as int, NUM_WIDTH as nat);
    lemma_rt_pair_items(s, p2, ps);
}


/// Encoding one more cue extends the run's encoding.
proof fn lemma_enc_cue_items_push(cs: Seq<CueView>, c: CueView)
    ensures
        spec_enc_cue_items(cs.push(c)) == spec_enc_cue_items(cs) + spec_enc_cue(c),
    decreases cs.len(),
{
    let s2 = cs.push(c);
    assert(s2.len() == cs.len() + 1);
    if cs.len() == 0 {
        assert(s2[0] == c);
        assert(s2.skip(1) =~= Seq::<CueView>::empty());
        assert(spec_enc_cue_items(s2) == spec_enc_cue(c) + spec_enc_cue_items(s2.skip(1)));
        assert(spec_enc_cue_items(s2) =~= spec_enc_cue_items(cs) + spec_enc_cue(c));
    } else {
        assert(s2[0] == cs[0]);
        assert(s2.skip(1) =~= cs.skip(1).push(c));
        lemma_enc_cue_items_push(cs.skip(1), c);
        assert(spec_enc_cue_items(s2) == spec_enc_cue(cs[0]) + spec_enc_cue_items(
            cs.skip(1).push(c),
        ));
        assert(spec_enc_cue_items(s2) =~= spec_enc_cue_items(cs) + spec_enc_cue(c));
    }
}

/// Encoding one more source extends the run's encoding.
proof fn lemma_enc_source_items_push(srcs: Seq<(SubPathView, Seq<CueView>)>, x: (SubPathView, Seq<CueView>))
    ensures
        spec_enc_source_items(srcs.push(x)) == spec_enc_source_items(srcs) + spec_enc_source(x),
    decreases srcs.len(),
{
    let s2 = srcs.push(x);
    assert(s2.len() == srcs.len() + 1);
    if srcs.len() == 0 {
        assert(s2[0] == x);
        assert(s2.skip(1) =~= Seq::<(SubPathView, Seq<CueView>)>::empty());
        assert(spec_enc_source_items(s2) == spec_enc_source(x) + spec_enc_source_items(
            s2.skip(1),
        ));
        assert(spec_enc_source_items(s2) =~= spec_enc_source_items(srcs) + spec_enc_source(x));
    } else {
        assert(s2[0] == srcs[0]);
        assert(s2.skip(1) =~= srcs.skip(1).push(x));
        lemma_enc_source_items_push(srcs.skip(1), x);
        assert(spec_enc_source_items(s2) == spec_enc_source(srcs[0]) + spec_enc_source_items(
            srcs.skip(1).push(x),
        ));
        assert(spec_enc_source_items(s2) =~= spec_enc_source_items(srcs) + spec_enc_source(x));
    }
}

/// Encoding one more keyed entry extends the run's encoding.
proof fn lemma_enc_pair_items_push(ps: Seq<(Seq<char>, EntryView)>, x: (Seq<char>, EntryView))
    ensures
        spec_enc_pair_items(ps.push(x)) == spec_enc_pair_items(ps) + spec_enc_pair(x),
    decreases ps.len(),
{
    let s2 = ps.push(x);
    assert(s2.len() == ps.len() + 1);
    if ps.len() == 0 {
        assert(s2[0] == x);
        assert(s2.skip(1) =~= Seq::<(Seq<char>, EntryView)>::empty());
        assert(spec_enc_pair_items(s2) == spec_enc_pair(x) + spec_enc_pair_items(s2.skip(1)));
        assert(spec_enc_pair_items(s2) =~= spec_enc_pair_items(ps) + spec_enc_pair(x));
    } else {
        assert(s2[0] == ps[0]);
        assert(s2.skip(1) =~= ps.skip(1).push(x));
        lemma_enc_pair_items_push(ps.skip(1), x);
        assert(spec_enc_pair_items(s2) == spec_enc_pair(ps[0]) + spec_enc_pair_items(
            ps.skip(1).push(x),
        ));
        assert(spec_enc_pair_items(s2) =~= spec_enc_pair_items(ps) + spec_enc_pair(x));
    }
}

/// Appends the encoding of one cue.
fn push_cue(out: &mut Vec<char>, c: &Subtitle)
    ensures
        final(out)@ == old(out)@ + spec_enc_cue(c@),
{
    push_fixed(out, c.num as u64, NUM_WIDTH);
    push_ts(out, c.start_time);
    push_ts(out, c.end_time);
    let text = util::chars_of(c.text.as_str());
    push_string(out, &text);
    assert(final(out)@ =~= old(out)@ + spec_enc_cue(c@));
}

/// Reads one cue at `pos`.
fn dec_cue(s: &Vec<char>, pos: usize) -> (r: Option<(Subtitle, usize)>)
    requires
        pos <= s@.len(),
    ensures
        match r {
            Some(p) => spec_dec_cue(s@, pos as int) == Some((p.0@, p.1 as int)) && p.1
                <= s@.len(),
            None => spec_dec_cue(s@, pos as int) is None,
        },
{
    let (num, p1) = match dec_fixed(s, pos, NUM_WIDTH) {
        None => {
            return None;
        },
        Some(p) => p,
    };
    if num > usize::MAX as u64 {
        return None;
    }
    let (start, p2) = match dec_ts(s, p1) {
        None => {
            return None;
        },
        Some(p) => p,
    };
    let (end, p3) = match dec_ts(s, p2) {
        None => {
            return None;
        },
        Some(p) => p,
    };
    let (text, p4) = match dec_string(s, p3) {
        None => {
            return None;
        },
        Some(p) => p,
    };
    Some(
        (
            Subtitle {
                num: num as usize,
                start_time: start,
                end_time: end,
                text: util::string_of(&text),
            },
            p4,
        ),
    )
}

/// Appends the encoding of one subtitle source tag.
fn push_subpath(out: &mut Vec<char>, p: &SubPath)
    ensures
        final(out)@ == old(out)@ + spec_enc_subpath(p@),
{
    match p {
        SubPath::InternalFFmpeg { stream_id } => {
            out.push('0');
            push_fixed(out, *stream_id as u64, NUM_WIDTH);
        },
        SubPath::External { path } => {
            out.push('1');
            let pc = util::chars_of(path.as_str());
            push_string(out, &pc);
        },
    }
    assert(final(out)@ =~= old(out)@ + spec_enc_subpath(p@));
}

/// Reads one subtitle source tag at `pos`.
fn dec_subpath(s: &Vec<char>, pos: usize) -> (r: Option<(SubPath, usize)>)
    requires
        pos <= s@.len(),
    ensures
        match r {
            Some(p) => spec_dec_subpath(s@, pos as int) == Some((p.0@, p.1 as int)) && p.1
                <= s@.len(),
            None => spec_dec_subpath(s@, pos as int) is None,
        },
{
    if pos == s.len() {
        return None;
    }
    let tag = s[pos];
    if tag == '0' {
        match dec_fixed(s, pos + 1, NUM_WIDTH) {
            None => None,
            Some((v, p2)) => {
                if v <= usize::MAX as u64 {
                    Some((SubPath::InternalFFmpeg { stream_id: v as usize }, p2))
                } else {
                    None
                }
            },
        }
    } else if tag == '1' {
        match dec_string(s, pos + 1) {
            None => None,
            Some((path, p2)) => Some(
                (SubPath::External { path: util::string_of(&path) }, p2),
            ),
        }
    } else {
        None
    }
}

/// Appends the encoding of one source with its cues.
fn push_source(out: &mut Vec<char>, src: &(SubPath, Vec<Subtitle>))
    ensures
        final(out)@ == old(out)@ + spec_enc_source((src.0@, cues_view(src.1@))),
{
    let ghost cv = cues_view(src.1@);
    push_subpath(out, &src.0);
    push_fixed(out, src.1.len() as u64, NUM_WIDTH);
    let ghost base = out@;
    let mut j: usize = 0;
    assert(cv.take(0) =~= Seq::<CueView>::empty());
    assert(out@ =~= base + spec_enc_cue_items(cv.take(0)));
    while j < src.1.len()
        invariant
            j <= src.1@.len(),
            cv == cues_view(src.1@),
            src.1@.len() == cv.len(),
            out@ == base + spec_enc_cue_items(cv.take(j as int)),
        decreases src.1@.len() - j,
    {
        assert(src.1@[j as int]@ == cv[j as int]);
        push_cue(out, &src.1[j]);
        proof {
            lemma_enc_cue_items_push(cv.take(j as int), cv[j as int]);
            assert(cv.take(j + 1 as int) =~= cv.take(j as int).push(cv[j as int]));
        }
        j = j + 1;
    }
    assert(cv.take(cv.len() as int) =~= cv);
    assert(final(out)@ =~= old(out)@ + spec_enc_source((src.0@, cv)));
}

/// Reads one source with its cues at `pos`.
fn dec_source(s: &Vec<char>, pos: usize) -> (r: Option<((SubPath, Vec<Subtitle>), usize)>)
    requires
        pos <= s@.len(),
    ensures
        match r {
            Some(p) => spec_dec_source(s@, pos as int) == Some(
                ((p.0.0@, cues_view(p.0.1@)), p.1 as int),
            ) && p.1 <= s@.len(),
            None => spec_dec_source(s@, pos as int) is None,
        },
{
    let (sp, p1) = match dec_subpath(s, pos) {
        None => {
            return None;
        },
        Some(p) => p,
    };
    let (count, p2) = match dec_fixed(s, p1, NUM_WIDTH) {
        None => {
            return None;
        },
        Some(p) => p,
    };
    if count > usize::MAX as u64 {
        return None;
    }
    let count_us: usize = count as usize;
    let ghost p0 = p2 as int;
    let mut built: Vec<Subtitle> = Vec::new();
    let mut k: usize = 0;
    let mut p: usize = p2;
    proof {
        if spec_dec_cue_items(s@, p0, count_us as nat) is Some {
            let res = spec_dec_cue_items(s@, p0, count_us as nat).unwrap();
            assert(cues_view(built@) + res.0 =~= res.0);
        }
    }
    while k < count_us
        invariant
            k <= count_us,
            p <= s@.len(),
            spec_dec_subpath(s@, pos as int) == Some((sp@, p1 as int)),
            spec_dec_fixed(s@, p1 as int, NUM_WIDTH as nat) == Some(count as int),
            count <= usize::MAX as u64,
            count_us == count,
            p0 == p1 + NUM_WIDTH,
            (match spec_dec_cue_items(s@, p0, count_us as nat) {
                None => spec_dec_cue_items(s@, p as int, (count_us - k) as nat) is None,
                Some(res) => (match spec_dec_cue_items(s@, p as int, (count_us - k) as nat) {
                    None => false,
                    Some(rest) => res.0 == cues_view(built@) + rest.0 && res.1 == rest.1,
                }),
            }),
        decreases count_us - k,
    {
        let ghost old_built = built@;
        match dec_cue(s, p) {
            None => {
                proof {
                    assert(spec_dec_cue_items(s@, p as int, (count_us - k) as nat) is None);
                    assert(spec_dec_cue_items(s@, p0, count_us as nat) is None);
                    assert(spec_dec_source(s@, pos as int) is None);
                }
                return None;
            },
            Some((c, pn)) => {
                built.push(c);
                proof {
                    assert(cues_view(built@) =~= cues_view(old_built).push(built@.last()@));
                    if spec_dec_cue_items(s@, p0, count_us as nat) is Some {
                        let res = spec_dec_cue_items(s@, p0, count_us as nat).unwrap();
                        let rest = spec_dec_cue_items(
                            s@,
                            p as int,
                            (count_us - k) as nat,
                        ).unwrap();
                        let rest2 = spec_dec_cue_items(
                            s@,
                            pn as int,
                            (count_us - k - 1) as nat,
                        ).unwrap();
                        assert(rest.0 == seq![built@.last()@] + rest2.0);
                        assert(cues_view(old_built) + (seq![built@.last()@] + rest2.0)
                            =~= cues_view(built@) + rest2.0);
                    }
                }
                p = pn;
            },
        }
        k = k + 1;
    }
    proof {
        if spec_dec_cue_items(s@, p0, count_us as nat) is Some {
            let res = spec_dec_cue_items(s@, p0, count_us as nat).unwrap();
            assert(cues_view(built@) + Seq::<CueView>::empty() =~= cues_view(built@));
        }
    }
    Some(((sp, built), p))
}


/// Appends the encoding of one entry.
fn push_entry(out: &mut Vec<char>, e: &Entry)
    ensures
        final(out)@ == old(out)@ + spec_enc_entry(e@),
{
    let ghost sv = crate::db::sub_files_view(e.sub_files@);
    let path_chars = util::chars_of(e.meta.video_path.as_str());
    push_string(out, &path_chars);
    push_i64(out, e.meta.time);
    push_fixed(out, e.sub_files.len() as u64, NUM_WIDTH);
    let ghost base = out@;
    let mut j: usize = 0;
    assert(sv.take(0) =~= Seq::<(SubPathView, Seq<CueView>)>::empty());
    assert(out@ =~= base + spec_enc_source_items(sv.take(0)));
    while j < e.sub_files.len()
        invariant
            j <= e.sub_files@.len(),
            sv == crate::db::sub_files_view(e.sub_files@),
            e.sub_files@.len() == sv.len(),
            out@ == base + spec_enc_source_items(sv.take(j as int)),
        decreases e.sub_files@.len() - j,
    {
        assert((e.sub_files@[j as int].0@, cues_view(e.sub_files@[j as int].1@)) == sv[j as int]);
        push_source(out, &e.sub_files[j]);
        proof {
            lemma_enc_source_items_push(sv.take(j as int), sv[j as int]);
            assert(sv.take(j + 1 as int) =~= sv.take(j as int).push(sv[j as int]));
        }
        j = j + 1;
    }
    assert(sv.take(sv.len() as int) =~= sv);
    assert(final(out)@ =~= old(out)@ + spec_enc_entry(e@));
}

/// Reads one entry at `pos`.
fn dec_entry(s: &Vec<char>, pos: usize) -> (r: Option<(Entry, usize)>)
    requires
        pos <= s@.len(),
    ensures
        match r {
            Some(p) => spec_dec_entry(s@, pos as int) == Some((p.0@, p.1 as int)) && p.1
                <= s@.len(),
            None => spec_dec_entry(s@, pos as int) is None,
        },
{
    let (path, p1) = match dec_string(s, pos) {
        None => {
            return None;
        },
        Some(p) => p,
    };
    let (time, p2) = match dec_i64(s, p1) {
        None => {
            return None;
        },
        Some(p) => p,
    };
    let (count, p3) = match dec_fixed(s, p2, NUM_WIDTH) {
        None => {
            return None;
        },
        Some(p) => p,
    };
    if count > usize::MAX as u64 {
        return None;
    }
    let count_us: usize = count as usize;
    let ghost p0 = p3 as int;
    let mut built: Vec<(SubPath, Vec<Subtitle>)> = Vec::new();
    let mut k: usize = 0;
    let mut p: usize = p3;
    proof {
        if spec_dec_source_items(s@, p0, count_us as nat) is Some {
            let res = spec_dec_source_items(s@, p0, count_us as nat).unwrap();
            assert(crate::db::sub_files_view(built@) + res.0 =~= res.0);
        }
    }
    while k < count_us
        invariant
            k <= count_us,
            p <= s@.len(),
            spec_dec_string(s@, pos as int) == Some((path@, p1 as int)),
            spec_dec_i64(s@, p1 as int) == Some((time, p2 as int)),
            spec_dec_fixed(s@, p2 as int, NUM_WIDTH as nat) == Some(count as int),
            count <= usize::MAX as u64,
            count_us == count,
            p0 == p2 + NUM_WIDTH,
            (match spec_dec_source_items(s@, p0, count_us as nat) {
                None => spec_dec_source_items(s@, p as int, (count_us - k) as nat) is None,
                Some(res) => (match spec_dec_source_items(
                    s@,
                    p as int,
                    (count_us - k) as nat,
                ) {
                    None => false,
                    Some(rest) => res.0 == crate::db::sub_files_view(built@) + rest.0 && res.1
                        == rest.1,
                }),
            }),
        decreases count_us - k,
    {
        let ghost old_built = built@;
        match dec_source(s, p) {
            None => {
                proof {
                    assert(spec_dec_source_items(s@, p as int, (count_us - k) as nat) is None);
                    assert(spec_dec_source_items(s@, p0, count_us as nat) is None);
                    assert(spec_dec_entry(s@, pos as int) is None);
                }
                return None;
            },
            Some((src, pn)) => {
                built.push(src);
                proof {
                    let lastv = (built@.last().0@, cues_view(built@.last().1@));
                    assert(crate::db::sub_files_view(built@) =~= crate::db::sub_files_view(
                        old_built,
                    ).push(lastv));
                    if spec_dec_source_items(s@, p0, count_us as nat) is Some {
                        let rest2 = spec_dec_source_items(
                            s@,
                            pn as int,
                            (count_us - k - 1) as nat,
                        ).unwrap();
                        assert(crate::db::sub_files_view(old_built) + (seq![lastv] + rest2.0)
                            =~= crate::db::sub_files_view(built@) + rest2.0);
                    }
                }
                p = pn;
            },
        }
        k = k + 1;
    }
    proof {
        if spec_dec_source_items(s@, p0, count_us as nat) is Some {
            assert(crate::db::sub_files_view(built@) + Seq::<(SubPathView, Seq<CueView>)>::empty()
                =~= crate::db::sub_files_view(built@));
        }
    }
    let entry = Entry {
        meta: Metadata { video_path: util::string_of(&path), time },
        sub_files: built,
    };
    Some((entry, p))
}

/// Appends the encoding of one keyed entry.
fn push_pair(out: &mut Vec<char>, key: &Key, e: &Entry)
    ensures
        final(out)@ == old(out)@ + spec_enc_pair((key@, e@)),
{
    let key_chars = util::chars_of(key.video_path.as_str());
    push_string(out, &key_chars);
    push_entry(out, e);
    assert(final(out)@ =~= old(out)@ + spec_enc_pair((key@, e@)));
}

/// Reads one keyed entry at `pos`.
fn dec_pair(s: &Vec<char>, pos: usize) -> (r: Option<((Key, Entry), usize)>)
    requires
        pos <= s@.len(),
    ensures
        match r {
            Some(p) => spec_dec_pair(s@, pos as int) == Some(
                ((p.0.0@, p.0.1@), p.1 as int),
            ) && p.1 <= s@.len(),
            None => spec_dec_pair(s@, pos as int) is None,
        },
{
    let (k, p1) = match dec_string(s, pos) {
        None => {
            return None;
        },
        Some(p) => p,
    };
    let (e, p2) = match dec_entry(s, p1) {
        None => {
            return None;
        },
        Some(p) => p,
    };
    Some(((Key { video_path: util::string_of(&k) }, e), p2))
}

/// The map that inserting a run of keyed entries in order produces (a
/// later pair for the same key wins).
pub open spec fn spec_fold_map(ps: Seq<(Seq<char>, EntryView)>) -> Map<Seq<char>, EntryView>
    decreases ps.len(),
{
    if ps.len() == 0 {
        Map::empty()
    } else {
        spec_fold_map(ps.drop_last()).insert(ps.last().0, ps.last().1)
    }
}

/// Folding one more pair inserts it into the folded map.
proof fn lemma_fold_map_push(ps: Seq<(Seq<char>, EntryView)>, pr: (Seq<char>, EntryView))
    ensures
        spec_fold_map(ps.push(pr)) == spec_fold_map(ps).insert(pr.0, pr.1),
{
    assert(ps.push(pr).drop_last() =~= ps);
    assert(ps.push(pr).last() == pr);
}

/// When an extended run still has unique keys, the new key was unseen.
proof fn lemma_unique_push(ps: Seq<(Seq<char>, EntryView)>, pr: (Seq<char>, EntryView))
    requires
        unique_keys(ps.push(pr)),
    ensures
        unique_keys(ps),
        !crate::db::spec_contains(ps, pr.0),
{
    let s2 = ps.push(pr);
    assert forall|i: int, j: int| 0 <= i < j < ps.len() implies ps[i].0 != ps[j].0 by {
        assert(s2[i].0 != s2[j].0);
    }
    if crate::db::spec_contains(ps, pr.0) {
        let w = choose|i: int| 0 <= i < ps.len() && ps[i].0 == pr.0;
        assert(s2[w].0 != s2[s2.len() - 1].0);
    }
}

impl SubDB {
    /// Serializes the whole store under the current schema tag. The
    /// caller writes the characters to the backing file, overwriting it.
    pub fn save(&self) -> (r: Vec<char>)
        ensures
            r@ == spec_enc_store(self@),
    {
        let entries = self.entries();
        let ghost ps = self@;
        let mut out: Vec<char> = Vec::new();
        let mut tag: Vec<char> = Vec::new();
        tag.push('0');
        tag.push('.');
        tag.push('2');
        assert(tag@ =~= spec_schema_tag());
        push_string(&mut out, &tag);
        push_fixed(&mut out, entries.len() as u64, NUM_WIDTH);
        let ghost base = out@;
        let mut i: usize = 0;
        assert(ps.take(0) =~= Seq::<(Seq<char>, EntryView)>::empty());
        assert(out@ =~= base + spec_enc_pair_items(ps.take(0)));
        while i < entries.len()
            invariant
                i <= entries@.len(),
                ps == pairs_view(entries@),
                entries@.len() == ps.len(),
                out@ == base + spec_enc_pair_items(ps.take(i as int)),
            decreases entries@.len() - i,
        {
            assert((entries@[i as int].0@, entries@[i as int].1@) == ps[i as int]);
            push_pair(&mut out, &entries[i].0, &entries[i].1);
            proof {
                lemma_enc_pair_items_push(ps.take(i as int), ps[i as int]);
                assert(ps.take(i + 1 as int) =~= ps.take(i as int).push(ps[i as int]));
            }
            i = i + 1;
        }
        assert(ps.take(ps.len() as int) =~= ps);
        assert(out@ =~= spec_enc_store(ps));
        out
    }

    /// Loads a store: an absent backing file yields an empty store; a
    /// present one is decoded under the schema tag, inserting the entries
    /// in file order (so a duplicated key keeps its last entry). A
    /// uniquely-keyed file — every file the library itself wrote — is
    /// reproduced exactly, entry for entry, in order.
    #[verifier::rlimit(100)]
    #[verifier::spinoff_prover]
    pub fn load(db_path: String, content: Option<&Vec<char>>) -> (r: Result<SubDB, LoadError>)
        ensures
            (content is None ==> (r matches Ok(store) && store@ == Seq::<
                (Seq<char>, EntryView),
            >::empty() && store.spec_db_path() == db_path@ && store.wf())),
            (content matches Some(c) ==> (match spec_dec_store(c@) {
                Err(e) => r matches Err(e2) && e2 == e,
                Ok(ps) => r matches Ok(store) && store.wf() && store.spec_db_path() == db_path@
                    && store.map_view() == spec_fold_map(ps) && (unique_keys(ps) ==> store@
                    == ps),
            })),
    {
        let data = match content {
            None => {
                return Ok(SubDB::new(db_path));
            },
            Some(c) => c,
        };
        let (tag, p1) = match dec_string(data, 0) {
            None => {
                return Err(LoadError::Malformed);
            },
            Some(p) => p,
        };
        if !(tag.len() == 3 && tag[0] == '0' && tag[1] == '.' && tag[2] == '2') {
            proof {
                if tag@ == spec_schema_tag() {
                    assert(tag@.len() == 3 && tag@[0] == '0' && tag@[1] == '.' && tag@[2]
                        == '2');
                }
            }
            return Err(LoadError::UnsupportedSchema);
        }
        assert(tag@ =~= spec_schema_tag());
        let (count, p2) = match dec_fixed(data, p1, NUM_WIDTH) {
            None => {
                return Err(LoadError::Malformed);
            },
            Some(p) => p,
        };
        if count > usize::MAX as u64 {
            return Err(LoadError::Malformed);
        }
        let count_us: usize = count as usize;
        let ghost p0 = p2 as int;
        let mut store = SubDB::new(db_path);
        let ghost built: Seq<(Seq<char>, EntryView)> = Seq::empty();
        let mut k: usize = 0;
        let mut p: usize = p2;
        proof {
            if spec_dec_pair_items(data@, p0, count_us as nat) is Some {
                let res = spec_dec_pair_items(data@, p0, count_us as nat).unwrap();
                assert(built + res.0 =~= res.0);
            }
            assert(spec_fold_map(built) =~= Map::<Seq<char>, EntryView>::empty());
        }
        while k < count_us
            invariant
                k <= count_us,
                p <= data@.len(),
                spec_dec_string(data@, 0) == Some((spec_schema_tag(), p1 as int)),
                spec_dec_fixed(data@, p1 as int, NUM_WIDTH as nat) == Some(count as int),
                count <= usize::MAX as u64,
                count_us == count,
                p0 == p1 + NUM_WIDTH,
                content == Some(data),
                store.wf(),
                store.spec_db_path() == db_path@,
                store.map_view() == spec_fold_map(built),
                unique_keys(built) ==> store@ == built,
                built.len() == k,
                (match spec_dec_pair_items(data@, p0, count_us as nat) {
                    None => spec_dec_pair_items(data@, p as int, (count_us - k) as nat)
                        is None,
                    Some(res) => (match spec_dec_pair_items(
                        data@,
                        p as int,
                        (count_us - k) as nat,
                    ) {
                        None => false,
                        Some(rest) => res.0 == built + rest.0 && res.1 == rest.1,
                    }),
                }),
            decreases count_us - k,
        {
            let ghost old_built = built;
            match dec_pair(data, p) {
                None => {
                    proof {
                        assert(spec_dec_pair_items(
                            data@,
                            p as int,
                            (count_us - k) as nat,
                        ) is None);
                        assert(spec_dec_pair_items(data@, p0, count_us as nat) is None);
                    }
                    return Err(LoadError::Malformed);
                },
                Some(((key, entry), pn)) => {
                    let ghost pr = (key@, entry@);
                    proof {
                        built = built.push(pr);
                        if spec_dec_pair_items(data@, p0, count_us as nat) is Some {
                            let rest2 = spec_dec_pair_items(
                                data@,
                                pn as int,
                                (count_us - k - 1) as nat,
                            ).unwrap();
                            assert(old_built + (seq![pr] + rest2.0) =~= built + rest2.0);
                        }
                        lemma_fold_map_push(old_built, pr);
                        if unique_keys(built) {
                            lemma_unique_push(old_built, pr);
                        }
                    }
                    store.insert_scanned(key, entry);
                    p = pn;
                },
            }
            k = k + 1;
        }
        proof {
            if spec_dec_pair_items(data@, p0, count_us as nat) is Some {
                assert(built + Seq::<(Seq<char>, EntryView)>::empty() =~= built);
            }
        }
        if p != data.len() {
            return Err(LoadError::Malformed);
        }
        Ok(store)
    }
}

} // verus!
