//! The timecode value: hours, minutes, seconds and a frame number, ordered
//! lexicographically, parsed from colon-delimited text and converted to an
//! exact position in frame ticks (whole seconds times the frame rate, plus
//! the frame number).

use vstd::prelude::*;

use crate::text::{
    all_digits, digit_val, digits_val, field_ok, field_val, is_digit, parse_byte_field,
    split_at_seps, split_chars, str_to_chars, views,
};

verus! {

/// A point in the video timeline, as hours, minutes, seconds and a frame
/// number within the second.
#[derive(Debug, Clone, Copy, PartialEq, Eq, Structural)]
pub struct Time {
    pub hours: u8,
    pub minutes: u8,
    pub seconds: u8,
    pub frames: u8,
}

/// Why a timecode string was rejected.
#[derive(Debug, Clone, Copy, PartialEq, Eq, Structural)]
pub enum ParseError {
    /// A field is not a non-negative integer of at most 255.
    BadField,
    /// More than four colon-delimited fields were given.
    TooManyFields,
}

/// The sentinel that stands for the end of the timeline: maximal in every
/// field.  It is produced by lookups past the last cue and is never a real
/// instant.
pub open spec fn end_spec() -> Time {
    Time { hours: 255, minutes: 255, seconds: 255, frames: 255 }
}

/// The timecode of the start of the video.
pub open spec fn zero_spec() -> Time {
    Time { hours: 0, minutes: 0, seconds: 0, frames: 0 }
}

/// The whole-second part of `t`.
pub open spec fn whole_seconds(t: Time) -> int {
    t.hours as int * 3600 + t.minutes as int * 60 + t.seconds as int
}

/// The position of `t` in frame ticks at frame rate `fps`: whole seconds
/// times the rate, plus the frame number.  At a given rate this is an exact
/// integer stand-in for the position in seconds.
pub open spec fn ticks(t: Time, fps: int) -> int {
    whole_seconds(t) * fps + t.frames as int
}

/// Strict lexicographic order on (hours, minutes, seconds, frames).
pub open spec fn spec_lt(a: Time, b: Time) -> bool {
    a.hours < b.hours || (a.hours == b.hours && (a.minutes < b.minutes || (a.minutes == b.minutes
        && (a.seconds < b.seconds || (a.seconds == b.seconds && a.frames < b.frames)))))
}

/// Lexicographic order on (hours, minutes, seconds, frames).
pub open spec fn spec_le(a: Time, b: Time) -> bool {
    spec_lt(a, b) || a == b
}

/// Minute and second fields below sixty, as a timecode read from a marker
/// export has them.
pub open spec fn in_range(t: Time) -> bool {
    t.minutes <= 59 && t.seconds <= 59
}

impl Time {
    /// The end-of-timeline sentinel.
    pub fn end() -> (t: Time)
        ensures
            t == end_spec(),
    {
        Time { hours: 255, minutes: 255, seconds: 255, frames: 255 }
    }

    /// The timecode of the start of the video.
    pub fn zero() -> (t: Time)
        ensures
            t == zero_spec(),
    {
        Time { hours: 0, minutes: 0, seconds: 0, frames: 0 }
    }

    /// Whether this value is the end-of-timeline sentinel.  The timecode
    /// carries no knowledge of the video's length; the sentinel only means
    /// "seek to the end of the media".
    pub fn is_end(&self) -> (r: bool)
        ensures
            r == (*self == end_spec()),
    {
        self.hours == 255 && self.minutes == 255 && self.seconds == 255 && self.frames == 255
    }

    /// Whether this instant is at or before `other`, comparing the fields
    /// lexicographically.
    pub fn le(&self, other: &Time) -> (r: bool)
        ensures
            r == spec_le(*self, *other),
    {
        if self.hours != other.hours {
            self.hours < other.hours
        } else if self.minutes != other.minutes {
            self.minutes < other.minutes
        } else if self.seconds != other.seconds {
            self.seconds < other.seconds
        } else {
            self.frames <= other.frames
        }
    }

    /// The number of frame ticks this instant stands for at frame rate
    /// `fps`: frames plus whole seconds times the rate.
    pub fn as_frames(&self, fps: u32) -> (r: u64)
        ensures
            r as int == ticks(*self, fps as int),
    {
        let whole: u64 = self.hours as u64 * 3600 + self.minutes as u64 * 60 + self.seconds as u64;
        proof {
            assert(whole as int * (fps as int) <= 933555 * 4294967295int) by (nonlinear_arith)
                requires
                    0 <= whole as int <= 933555,
                    0 <= fps as int <= 4294967295int,
            ;
        }
        whole * (fps as u64) + self.frames as u64
    }

    /// The timecode of the instant `millis` milliseconds into the video at
    /// frame rate `fps`.
    pub fn from_millis(millis: u64, fps: u32) -> (t: Time)
        requires
            fps >= 1,
        ensures
            t == from_millis_spec(millis as int, fps as int),
    {
        let secs: u64 = millis / 1000;
        proof {
            assert(millis as int * (fps as int) <= 0xffff_ffff_ffff_ffff * 0xffff_ffff)
                by (nonlinear_arith)
                requires
                    0 <= millis as int <= 0xffff_ffff_ffff_ffff,
                    0 <= fps as int <= 0xffff_ffff,
            ;
        }
        let total_frames: u128 = (millis as u128) * (fps as u128) / 1000;
        let frame: u128 = total_frames % (fps as u128);
        Time {
            hours: ((secs / 3600) % 256) as u8,
            minutes: ((secs / 60) % 256) as u8,
            seconds: (secs % 60) as u8,
            frames: (frame % 256) as u8,
        }
    }
}

// ---------------------------------------------------------------------------
// Parsing
// ---------------------------------------------------------------------------

/// The colon-delimited fields of a timecode string.
pub open spec fn time_fields(s: Seq<char>) -> Seq<Seq<char>> {
    split_at_seps(s, ':', ':')
}

/// The timecode denoted by 1 to 4 numeric fields: fields fill the positions
/// from the frame number backward, and missing leading fields are zero, so
/// `"12"` is 12 frames and `"00:15"` is 15 frames.
pub open spec fn fields_to_time(fs: Seq<Seq<char>>) -> Time {
    let n = fs.len() as int;
    Time {
        hours: if n >= 4 {
            field_val(fs[n - 4]) as u8
        } else {
            0
        },
        minutes: if n >= 3 {
            field_val(fs[n - 3]) as u8
        } else {
            0
        },
        seconds: if n >= 2 {
            field_val(fs[n - 2]) as u8
        } else {
            0
        },
        frames: field_val(fs[n - 1]) as u8,
    }
}

/// What parsing a timecode string yields: the value denoted by its colon
/// fields, or the error naming the first rule the string breaks.
pub open spec fn parse_spec(s: Seq<char>) -> Result<Time, ParseError> {
    let fs = time_fields(s);
    if fs.len() > 4 {
        Err(ParseError::TooManyFields)
    } else if !(forall|i: int| 0 <= i < fs.len() ==> field_ok(#[trigger] fs[i])) {
        Err(ParseError::BadField)
    } else {
        Ok(fields_to_time(fs))
    }
}

impl Time {
    /// Parses an already-decoded sequence of characters as a timecode.
    pub fn parse_chars(v: &Vec<char>) -> (r: Result<Time, ParseError>)
        ensures
            r == parse_spec(v@),
    {
        let fields = split_chars(v, ':', ':');
        let ghost fs = time_fields(v@);
        proof {
            assert(views(fields@) == fs);
        }
        if fields.len() > 4 {
            return Err(ParseError::TooManyFields);
        }
        let mut vals: Vec<u8> = Vec::new();
        let mut i: usize = 0;
        while i < fields.len()
            invariant
                0 <= i <= fields@.len() <= 4,
                fs == time_fields(v@),
                fs == views(fields@),
                fs.len() == fields@.len(),
                vals@.len() == i,
                forall|k: int|
                    0 <= k < i ==> field_ok(#[trigger] fs[k]) && vals@[k] as int == field_val(
                        fs[k],
                    ),
            decreases fields@.len() - i,
        {
            match parse_byte_field(&fields[i]) {
                Some(n) => {
                    vals.push(n);
                },
                None => {
                    assert(!field_ok(fs[i as int]));
                    return Err(ParseError::BadField);
                },
            }
            i = i + 1;
        }
        let n = vals.len();
        let t = Time {
            hours: if n >= 4 {
                vals[n - 4]
            } else {
                0
            },
            minutes: if n >= 3 {
                vals[n - 3]
            } else {
                0
            },
            seconds: if n >= 2 {
                vals[n - 2]
            } else {
                0
            },
            frames: vals[n - 1],
        };
        proof {
            crate::text::lemma_split_len(v@, ':', ':');
        }
        Ok(t)
    }

    /// Parses a colon-delimited timecode string, as the marker export writes
    /// one.
    pub fn parse(s: &str) -> (r: Result<Time, ParseError>)
        ensures
            r == parse_spec(s@),
    {
        let chars = str_to_chars(s);
        Time::parse_chars(&chars)
    }
}

impl core::str::FromStr for Time {
    type Err = ParseError;

    fn from_str(s: &str) -> Result<Time, ParseError> {
        Time::parse(s)
    }
}

// ---------------------------------------------------------------------------
// Formatting
// ---------------------------------------------------------------------------

/// The character of the decimal digit `d`.
pub open spec fn digit_char(d: int) -> char {
    if d == 0 {
        '0'
    } else if d == 1 {
        '1'
    } else if d == 2 {
        '2'
    } else if d == 3 {
        '3'
    } else if d == 4 {
        '4'
    } else if d == 5 {
        '5'
    } else if d == 6 {
        '6'
    } else if d == 7 {
        '7'
    } else if d == 8 {
        '8'
    } else {
        '9'
    }
}

/// A field value in decimal, zero-padded to two digits.
pub open spec fn fmt_u8(n: int) -> Seq<char> {
    if n < 10 {
        seq!['0', digit_char(n)]
    } else if n < 100 {
        seq![digit_char(n / 10), digit_char(n % 10)]
    } else {
        seq![digit_char(n / 100), digit_char((n / 10) % 10), digit_char(n % 10)]
    }
}

/// A timecode in its `HH:MM:SS:FF` text form.
pub open spec fn fmt_time(t: Time) -> Seq<char> {
    fmt_u8(t.hours as int) + seq![':'] + fmt_u8(t.minutes as int) + seq![':'] + fmt_u8(
        t.seconds as int,
    ) + seq![':'] + fmt_u8(t.frames as int)
}

/// The character of one decimal digit.
fn digit_str(d: u8) -> (r: &'static str)
    requires
        d < 10,
    ensures
        r@ =~= seq![digit_char(d as int)],
{
    proof {
        reveal_strlit("0");
        reveal_strlit("1");
        reveal_strlit("2");
        reveal_strlit("3");
        reveal_strlit("4");
        reveal_strlit("5");
        reveal_strlit("6");
        reveal_strlit("7");
        reveal_strlit("8");
        reveal_strlit("9");
    }
    match d {
        0 => "0",
        1 => "1",
        2 => "2",
        3 => "3",
        4 => "4",
        5 => "5",
        6 => "6",
        7 => "7",
        8 => "8",
        _ => "9",
    }
}

/// Appends a field value in decimal, zero-padded to two digits.
fn push_u8_text(out: &mut String, n: u8)
    ensures
        final(out)@ == old(out)@ + fmt_u8(n as int),
{
    let ghost o = old(out)@;
    if n < 10 {
        out.append(digit_str(0));
        out.append(digit_str(n));
        proof {
            assert(out@ =~= o + fmt_u8(n as int));
        }
    } else if n < 100 {
        out.append(digit_str(n / 10));
        out.append(digit_str(n % 10));
        proof {
            assert(out@ =~= o + fmt_u8(n as int));
        }
    } else {
        out.append(digit_str(n / 100));
        out.append(digit_str((n / 10) % 10));
        out.append(digit_str(n % 10));
        proof {
            assert(out@ =~= o + fmt_u8(n as int));
        }
    }
}

impl Time {
    /// This timecode in its `HH:MM:SS:FF` text form.
    pub fn to_text(&self) -> (r: String)
        ensures
            r@ == fmt_time(*self),
    {
        proof {
            reveal_strlit(":");
        }
        let mut out = String::new();
        push_u8_text(&mut out, self.hours);
        out.append(":");
        push_u8_text(&mut out, self.minutes);
        out.append(":");
        push_u8_text(&mut out, self.seconds);
        out.append(":");
        push_u8_text(&mut out, self.frames);
        proof {
            assert(":"@ =~= seq![':']);
            assert(out@ =~= fmt_time(*self));
        }
        out
    }
}

/// The timecode `millis` milliseconds into the video at frame rate `fps`:
/// seconds are split into hours, minutes and seconds, and the remainder of
/// the elapsed frame count within the current second gives the frame field.
/// Components too large for their field wrap at 256.
pub open spec fn from_millis_spec(ms: int, fps: int) -> Time {
    let secs = ms / 1000;
    let frames = (ms * fps) / 1000;
    Time {
        hours: ((secs / 3600) % 256) as u8,
        minutes: ((secs / 60) % 256) as u8,
        seconds: (secs % 60) as u8,
        frames: ((frames % fps) % 256) as u8,
    }
}

// ---------------------------------------------------------------------------
// Laws
// ---------------------------------------------------------------------------

proof fn lemma_digit_char(d: int)
    requires
        0 <= d <= 9,
    ensures
        is_digit(digit_char(d)),
        digit_val(digit_char(d)) == d,
        digit_char(d) != ':',
        digit_char(d) != '+',
{
}

proof fn lemma_digits_val_pair(a: char, b: char)
    ensures
        digits_val(seq![a, b]) == digit_val(a) * 10 + digit_val(b),
        digits_val(seq![a, b, b]) == (digit_val(a) * 10 + digit_val(b)) * 10 + digit_val(b),
{
    let s1 = seq![a];
    let s2 = seq![a, b];
    let s3 = seq![a, b, b];
    assert(s1.drop_last() =~= Seq::<char>::empty());
    assert(digits_val(Seq::<char>::empty()) == 0);
    assert(digits_val(s1) == digit_val(a));
    assert(s2.drop_last() =~= s1);
    assert(digits_val(s2) == digit_val(a) * 10 + digit_val(b));
    assert(s3.drop_last() =~= s2);
}

proof fn lemma_digits_val_triple(a: char, b: char, c: char)
    ensures
        digits_val(seq![a, b, c]) == (digit_val(a) * 10 + digit_val(b)) * 10 + digit_val(c),
{
    let s2 = seq![a, b];
    let s3 = seq![a, b, c];
    lemma_digits_val_pair(a, b);
    assert(s3.drop_last() =~= s2);
}

/// The text of a field value is a well-formed, separator-free field with
/// that value.
proof fn lemma_fmt_u8_field(n: int)
    requires
        0 <= n <= 255,
    ensures
        crate::text::sep_free(fmt_u8(n), ':', ':'),
        field_ok(fmt_u8(n)),
        field_val(fmt_u8(n)) == n,
{
    let f = fmt_u8(n);
    if n < 10 {
        lemma_digit_char(0);
        lemma_digit_char(n);
        lemma_digits_val_pair('0', digit_char(n));
        assert(crate::text::field_digits(f) == f);
        assert(all_digits(f)) by {
            assert(f[0] == '0' && f[1] == digit_char(n));
        }
    } else if n < 100 {
        lemma_digit_char(n / 10);
        lemma_digit_char(n % 10);
        lemma_digits_val_pair(digit_char(n / 10), digit_char(n % 10));
        assert(crate::text::field_digits(f) == f);
        assert(all_digits(f)) by {
            assert(f[0] == digit_char(n / 10) && f[1] == digit_char(n % 10));
        }
        assert(field_val(f) == (n / 10) * 10 + n % 10);
    } else {
        lemma_digit_char(n / 100);
        lemma_digit_char((n / 10) % 10);
        lemma_digit_char(n % 10);
        lemma_digits_val_triple(digit_char(n / 100), digit_char((n / 10) % 10), digit_char(n % 10));
        assert(crate::text::field_digits(f) == f);
        assert(all_digits(f)) by {
            assert(f[0] == digit_char(n / 100) && f[1] == digit_char((n / 10) % 10) && f[2]
                == digit_char(n % 10));
        }
        assert(field_val(f) == ((n / 100) * 10 + (n / 10) % 10) * 10 + n % 10);
        assert(((n / 100) * 10 + (n / 10) % 10) * 10 + n % 10 == n) by (nonlinear_arith)
            requires
                100 <= n <= 255,
        ;
    }
}

/// Parsing is a left inverse of formatting: the `HH:MM:SS:FF` text of any
/// timecode parses back to the same value.
pub proof fn lemma_parse_formatted(t: Time)
    ensures
        parse_spec(fmt_time(t)) == Ok::<Time, ParseError>(t),
{
    let fh = fmt_u8(t.hours as int);
    let fm = fmt_u8(t.minutes as int);
    let fs_ = fmt_u8(t.seconds as int);
    let ff = fmt_u8(t.frames as int);
    lemma_fmt_u8_field(t.hours as int);
    lemma_fmt_u8_field(t.minutes as int);
    lemma_fmt_u8_field(t.seconds as int);
    lemma_fmt_u8_field(t.frames as int);
    let rest2 = fs_ + seq![':'] + ff;
    let rest1 = fm + seq![':'] + rest2;
    assert(fmt_time(t) =~= fh + seq![':'] + rest1);
    crate::text::lemma_split_concat(fh, ':', rest1, ':', ':');
    crate::text::lemma_split_concat(fm, ':', rest2, ':', ':');
    crate::text::lemma_split_concat(fs_, ':', ff, ':', ':');
    crate::text::lemma_split_sep_free(ff, ':', ':');
    let fields = time_fields(fmt_time(t));
    assert(fields =~~= seq![fh, fm, fs_, ff]);
    assert(forall|i: int| 0 <= i < fields.len() ==> field_ok(#[trigger] fields[i])) by {
        assert(fields[0] == fh && fields[1] == fm && fields[2] == fs_ && fields[3] == ff);
    }
    assert(fields_to_time(fields) == t);
}

/// Converting to a position never inverts the order of valid timecodes: if
/// `t1` is at or before `t2`, both have in-range minute and second fields,
/// and both frame numbers are below the frame rate, then `t1`'s position in
/// ticks is at most `t2`'s.
pub proof fn lemma_ticks_monotonic(t1: Time, t2: Time, fps: int)
    requires
        spec_le(t1, t2),
        in_range(t1),
        in_range(t2),
        t1.frames < fps,
        t2.frames < fps,
    ensures
        ticks(t1, fps) <= ticks(t2, fps),
{
    if t1 != t2 {
        lemma_ticks_strictly_monotonic(t1, t2, fps);
    }
}

/// The strict form: a strictly earlier valid timecode has a strictly
/// earlier position in ticks.
pub proof fn lemma_ticks_strictly_monotonic(t1: Time, t2: Time, fps: int)
    requires
        spec_lt(t1, t2),
        in_range(t1),
        in_range(t2),
        t1.frames < fps,
        t2.frames < fps,
    ensures
        ticks(t1, fps) < ticks(t2, fps),
{
    let w1 = whole_seconds(t1);
    let w2 = whole_seconds(t2);
    if t1.hours == t2.hours && t1.minutes == t2.minutes && t1.seconds == t2.seconds {
        assert(w1 == w2);
    } else {
        assert(w1 + 1 <= w2);
        let f1 = t1.frames as int;
        let f2 = t2.frames as int;
        assert(w1 * fps + f1 < w2 * fps + f2) by (nonlinear_arith)
            requires
                w1 + 1 <= w2,
                0 <= f1,
                f1 < fps,
                0 <= f2,
        ;
    }
}

} // verus!
