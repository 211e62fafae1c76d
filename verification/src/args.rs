//! The program's settings as plain values, and the parser for the
//! `key=value` engine settings the user may pass.  The command line itself
//! is read outside the library and handed in as strings.

use vstd::prelude::*;
use vstd::string::*;

verus! {

/// The settings a session runs with.
#[derive(Debug)]
pub struct Args {
    /// Path of the video file to play.
    pub video: String,
    /// Path of the marker file (comma- or tab-separated) the cue table is
    /// built from.
    pub markers: String,
    /// Settings to pass to the playback engine, as key/value pairs.
    pub mpv_setting: Vec<(String, String)>,
    /// Whether to play audio.
    pub audio: bool,
}

/// The index of the first `=` in `s`, or -1 when there is none.
pub open spec fn first_eq(s: Seq<char>) -> int
    decreases s.len(),
{
    if s.len() == 0 {
        -1
    } else if s[0] == '=' {
        0
    } else {
        let r = first_eq(s.drop_first());
        if r < 0 {
            -1
        } else {
            r + 1
        }
    }
}

/// What an engine setting splits into: the text before the first `=` and
/// the text after it, or the whole text with an empty value when there is
/// no `=`.
pub open spec fn setting_spec(s: Seq<char>) -> (Seq<char>, Seq<char>) {
    let i = first_eq(s);
    if i < 0 {
        (s, Seq::empty())
    } else {
        (s.take(i), s.skip(i + 1))
    }
}

proof fn lemma_first_eq_at(s: Seq<char>, j: int)
    requires
        0 <= j < s.len(),
        s[j] == '=',
        forall|k: int| 0 <= k < j ==> s[k] != '=',
    ensures
        first_eq(s) == j,
    decreases s.len(),
{
    if j > 0 {
        assert(s.drop_first()[j - 1] == s[j]);
        assert(forall|k: int| 0 <= k < j - 1 ==> #[trigger] s.drop_first()[k] == s[k + 1]);
        lemma_first_eq_at(s.drop_first(), j - 1);
    }
}

proof fn lemma_first_eq_none(s: Seq<char>)
    requires
        forall|k: int| 0 <= k < s.len() ==> s[k] != '=',
    ensures
        first_eq(s) == -1,
    decreases s.len(),
{
    if s.len() > 0 {
        assert(forall|k: int|
            0 <= k < s.drop_first().len() ==> #[trigger] s.drop_first()[k] == s[k + 1]);
        lemma_first_eq_none(s.drop_first());
    }
}

/// Splits an engine setting into its key and value: the text before and
/// after the first `=`.  A setting without `=` is a key with an empty
/// value.  Never fails; the `Result` is for the caller's interface.
pub fn parse_setting(raw: &str) -> (r: Result<(String, String), String>)
    ensures
        r matches Ok(kv) && kv.0@ == setting_spec(raw@).0 && kv.1@ == setting_spec(raw@).1,
{
    let n = raw.unicode_len();
    let mut i: usize = 0;
    while i < n
        invariant
            0 <= i <= n,
            n == raw@.len(),
            forall|k: int| 0 <= k < i ==> raw@[k] != '=',
        decreases n - i,
    {
        if raw.get_char(i) == '=' {
            proof {
                lemma_first_eq_at(raw@, i as int);
            }
            let key = raw.substring_char(0, i).to_owned();
            let val = raw.substring_char(i + 1, n).to_owned();
            proof {
                assert(raw@.subrange(0, i as int) =~= raw@.take(i as int));
                assert(raw@.subrange(i + 1, n as int) =~= raw@.skip(i + 1));
            }
            return Ok((key, val));
        }
        i = i + 1;
    }
    proof {
        lemma_first_eq_none(raw@);
    }
    Ok((raw.to_owned(), String::new()))
}

} // verus!
