//! Character-level helpers: converting between `String` and `Vec<char>`,
//! decimal digit rendering, and escaping a line of text so that it is safe to
//! use as a unix filename.

use vstd::prelude::*;

verus! {

/// Relies on `String::push`: appends exactly the given character.
#[verifier::external_body]
fn push_char(s: &mut String, c: char)
    ensures
        final(s)@ == old(s)@.push(c),
{
    s.push(c);
}

/// The characters of `s`, in order, as a vector.
pub fn chars_of(s: &str) -> (r: Vec<char>)
    ensures
        r@ == s@,
{
    let n: usize = s.unicode_len();
    let mut v: Vec<char> = Vec::new();
    let mut i: usize = 0;
    while i < n
        invariant
            i <= n,
            n == s@.len(),
            v@ == s@.take(i as int),
        decreases n - i,
    {
        v.push(s.get_char(i));
        assert(s@.take(i + 1 as int) =~= s@.take(i as int).push(s@[i as int]));
        i = i + 1;
    }
    assert(s@.take(n as int) =~= s@);
    v
}

/// A `String` holding exactly the characters of `v`, in order.
pub fn string_of(v: &Vec<char>) -> (r: String)
    ensures
        r@ == v@,
{
    let mut s = String::new();
    let mut i: usize = 0;
    while i < v.len()
        invariant
            i <= v@.len(),
            s@ == v@.take(i as int),
        decreases v@.len() - i,
    {
        push_char(&mut s, v[i]);
        assert(v@.take(i + 1 as int) =~= v@.take(i as int).push(v@[i as int]));
        i = i + 1;
    }
    assert(v@.take(v@.len() as int) =~= v@);
    s
}

/// Structural string equality.
pub fn str_eq(a: &str, b: &str) -> (r: bool)
    ensures
        r == (a@ == b@),
{
    let sa = String::from_str(a);
    let sb = String::from_str(b);
    sa == sb
}

/// The decimal digit character for a value in `0 ..= 9`.
pub open spec fn digit_char(d: int) -> char {
    if d == 0 {
        '0'
    } else if d == 1 {
        '1'
    } else if d == 2 {
        '2'
    } else if d == 3 {
        '3'
    } else if d == 4 {
        '4'
    } else if d == 5 {
        '5'
    } else if d == 6 {
        '6'
    } else if d == 7 {
        '7'
    } else if d == 8 {
        '8'
    } else {
        '9'
    }
}

/// Renders one decimal digit.
pub fn digit(d: u32) -> (c: char)
    requires
        d < 10,
    ensures
        c == digit_char(d as int),
{
    if d == 0 {
        '0'
    } else if d == 1 {
        '1'
    } else if d == 2 {
        '2'
    } else if d == 3 {
        '3'
    } else if d == 4 {
        '4'
    } else if d == 5 {
        '5'
    } else if d == 6 {
        '6'
    } else if d == 7 {
        '7'
    } else if d == 8 {
        '8'
    } else {
        '9'
    }
}

/// `n` in decimal, at least two digits wide (zero padded), as Rust's
/// `{:02}` renders a `u8`.
pub open spec fn spec_decimal_w2(n: int) -> Seq<char> {
    if n >= 100 {
        seq![digit_char(n / 100), digit_char((n / 10) % 10), digit_char(n % 10)]
    } else {
        seq![digit_char(n / 10), digit_char(n % 10)]
    }
}

/// `n` in decimal, at least three digits wide (zero padded), as Rust's
/// `{:03}` renders a `u16`.
pub open spec fn spec_decimal_w3(n: int) -> Seq<char> {
    if n >= 10000 {
        seq![
            digit_char(n / 10000),
            digit_char((n / 1000) % 10),
            digit_char((n / 100) % 10),
            digit_char((n / 10) % 10),
            digit_char(n % 10),
        ]
    } else if n >= 1000 {
        seq![
            digit_char(n / 1000),
            digit_char((n / 100) % 10),
            digit_char((n / 10) % 10),
            digit_char(n % 10),
        ]
    } else {
        seq![digit_char(n / 100), digit_char((n / 10) % 10), digit_char(n % 10)]
    }
}

/// Pushes the `{:02}` rendering of `n` onto `out`.
pub fn push_decimal_w2(out: &mut Vec<char>, n: u8)
    ensures
        final(out)@ == old(out)@ + spec_decimal_w2(n as int),
{
    let v: u32 = n as u32;
    if v >= 100 {
        out.push(digit(v / 100));
        out.push(digit((v / 10) % 10));
        out.push(digit(v % 10));
    } else {
        out.push(digit(v / 10));
        out.push(digit(v % 10));
    }
    assert(final(out)@ =~= old(out)@ + spec_decimal_w2(n as int));
}

/// Pushes the `{:03}` rendering of `n` onto `out`.
pub fn push_decimal_w3(out: &mut Vec<char>, n: u16)
    ensures
        final(out)@ == old(out)@ + spec_decimal_w3(n as int),
{
    let v: u32 = n as u32;
    if v >= 10000 {
        out.push(digit(v / 10000));
        out.push(digit((v / 1000) % 10));
        out.push(digit((v / 100) % 10));
        out.push(digit((v / 10) % 10));
        out.push(digit(v % 10));
    } else if v >= 1000 {
        out.push(digit(v / 1000));
        out.push(digit((v / 100) % 10));
        out.push(digit((v / 10) % 10));
        out.push(digit(v % 10));
    } else {
        out.push(digit(v / 100));
        out.push(digit((v / 10) % 10));
        out.push(digit(v % 10));
    }
    assert(final(out)@ =~= old(out)@ + spec_decimal_w3(n as int));
}

/// True for the characters that may not appear in a unix filename (or would
/// be awkward in one) and are therefore replaced by an underscore.
pub open spec fn is_forbidden_char(c: char) -> bool {
    c == '/' || c == '*' || c == '?' || c == ':' || c == '|' || c == '\'' || c == '"' || c
        == '\u{0}'
}

/// One character after the substitution pass: forbidden characters become
/// underscores, and a leading dash becomes an underscore too.
pub open spec fn escaped_char(c: char, first: bool) -> char {
    if is_forbidden_char(c) {
        '_'
    } else if first && c == '-' {
        '_'
    } else {
        c
    }
}

/// The substitution pass over a whole string.
pub open spec fn escape_chars(s: Seq<char>) -> Seq<char> {
    Seq::new(s.len(), |i: int| escaped_char(s[i], i == 0))
}

/// The line-break pass: every `\r\n` pair, and every remaining lone `\n` or
/// `\r`, becomes three underscores.
pub open spec fn escape_newlines(s: Seq<char>) -> Seq<char>
    decreases s.len(),
{
    if s.len() == 0 {
        s
    } else if s.len() >= 2 && s[0] == '\r' && s[1] == '\n' {
        seq!['_', '_', '_'] + escape_newlines(s.skip(2))
    } else if s[0] == '\r' || s[0] == '\n' {
        seq!['_', '_', '_'] + escape_newlines(s.skip(1))
    } else {
        seq![s[0]] + escape_newlines(s.skip(1))
    }
}

/// What `escape_for_unix_filename` returns: the substitution pass followed by
/// the line-break pass.
pub open spec fn escape_spec(s: Seq<char>) -> Seq<char> {
    escape_newlines(escape_chars(s))
}

/// Replaces characters that are unsafe in a unix filename: `/ * ? : | ' "`
/// and NUL become `_`, a leading `-` becomes `_`, and every line break
/// (`\r\n`, `\n` or `\r`) becomes `___`.
pub fn escape_for_unix_filename(input: &str) -> (r: String)
    ensures
        r@ == escape_spec(input@),
{
    let cs = chars_of(input);
    let out = escape_vec(&cs);
    string_of(&out)
}

/// The whole escaping pipeline over a character vector.
pub fn escape_vec(cs: &Vec<char>) -> (r: Vec<char>)
    ensures
        r@ == escape_spec(cs@),
{
    let mut mapped: Vec<char> = Vec::new();
    let mut i: usize = 0;
    while i < cs.len()
        invariant
            i <= cs@.len(),
            mapped@ == escape_chars(cs@).take(i as int),
        decreases cs@.len() - i,
    {
        let c = cs[i];
        let m: char = if c == '/' || c == '*' || c == '?' || c == ':' || c == '|' || c == '\''
            || c == '"' || c == '\u{0}' {
            '_'
        } else if i == 0 && c == '-' {
            '_'
        } else {
            c
        };
        mapped.push(m);
        assert(escape_chars(cs@).take(i + 1 as int) =~= escape_chars(cs@).take(i as int).push(
            escaped_char(cs@[i as int], i == 0),
        ));
        i = i + 1;
    }
    assert(escape_chars(cs@).take(cs@.len() as int) =~= escape_chars(cs@));
    escape_line_breaks(&mapped)
}

/// The line-break pass as executable code over a character vector.
fn escape_line_breaks(v: &Vec<char>) -> (r: Vec<char>)
    ensures
        r@ == escape_newlines(v@),
{
    let mut out: Vec<char> = Vec::new();
    let mut i: usize = 0;
    assert(v@.skip(0) =~= v@);
    assert(escape_newlines(v@) =~= Seq::<char>::empty() + escape_newlines(v@));
    while i < v.len()
        invariant
            i <= v@.len(),
            escape_newlines(v@) == out@ + escape_newlines(v@.skip(i as int)),
        decreases v@.len() - i,
    {
        let ghost rest = v@.skip(i as int);
        if v[i] == '\r' && i + 1 < v.len() && v[i + 1] == '\n' {
            out.push('_');
            out.push('_');
            out.push('_');
            assert(rest.skip(2) =~= v@.skip(i + 2 as int));
            i = i + 2;
        } else if v[i] == '\r' || v[i] == '\n' {
            out.push('_');
            out.push('_');
            out.push('_');
            assert(rest.skip(1) =~= v@.skip(i + 1 as int));
            i = i + 1;
        } else {
            out.push(v[i]);
            assert(rest.skip(1) =~= v@.skip(i + 1 as int));
            i = i + 1;
        }
        assert(escape_newlines(v@) =~= out@ + escape_newlines(v@.skip(i as int)));
    }
    assert(v@.skip(v@.len() as int) =~= Seq::<char>::empty());
    assert(escape_newlines(v@) =~= out@);
    out
}

/// At most the first `n` characters of `s` (Rust's string precision
/// formatting, `{:.n$}`).
pub open spec fn take_chars(s: Seq<char>, n: nat) -> Seq<char> {
    if s.len() <= n {
        s
    } else {
        s.take(n as int)
    }
}

/// Copies at most the first `limit` characters of `s` onto `out`.
pub fn push_truncated(out: &mut Vec<char>, s: &Vec<char>, limit: usize)
    ensures
        final(out)@ == old(out)@ + take_chars(s@, limit as nat),
{
    let end: usize = if s.len() <= limit {
        s.len()
    } else {
        limit
    };
    let mut i: usize = 0;
    while i < end
        invariant
            i <= end,
            end <= s@.len(),
            end == take_chars(s@, limit as nat).len(),
            out@ == old(out)@ + s@.take(end as int).take(i as int),
        decreases end - i,
    {
        out.push(s[i]);
        assert(s@.take(end as int).take(i + 1 as int) =~= s@.take(end as int).take(
            i as int,
        ).push(s@[i as int]));
        i = i + 1;
    }
    assert(s@.take(end as int).take(end as int) =~= take_chars(s@, limit as nat));
}

} // verus!
