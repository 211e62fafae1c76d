//! The cue table: an ascending-sorted sequence of timecodes built from a
//! marker export, with boundary search over reported positions and 1-based
//! index-to-time lookup.
//!
//! A marker export is a tab- or comma-separated text: each row carries the
//! marker's start time at field 2, its end time at field 3 and its type at
//! field 5.  Rows whose type does not contain `Cue Point`, and rows whose
//! start and end differ (a cue is an instant, not a range), are skipped;
//! a row with fewer than six fields or an unparsable time is fatal.

use vstd::prelude::*;

use crate::text::{
    has_substring, lemma_split_len, split_at_seps, split_chars, str_to_chars, views,
};
use crate::time::{end_spec, in_range, parse_spec, spec_le, ticks, zero_spec, Time};

verus! {

/// Why a marker export was rejected as a whole.
#[derive(Debug, Clone, Copy, PartialEq, Eq, Structural)]
pub enum LoadError {
    /// A row has fewer than six fields, or a time field does not parse.
    Malformed,
}

/// What one marker row contributes to the table.
#[derive(Debug, Clone, Copy, PartialEq, Eq, Structural)]
pub enum RowOutcome {
    /// A well-formed cue row: contributes its instant.
    Cue(Time),
    /// The marker-type field does not contain `Cue Point`; skipped.
    NotCue,
    /// Start and end time differ; cues are instants, so the row is skipped.
    NonZeroDuration,
    /// Too few fields, or a time field does not parse; fatal.
    Malformed,
}

// ---------------------------------------------------------------------------
// The header heuristic
// ---------------------------------------------------------------------------

/// What `char::is_alphabetic` returns: a fixed property of the character.
pub uninterp spec fn char_alphabetic(c: char) -> bool;

/// Relies on `char::is_alphabetic`: whether the character has the Unicode
/// `Alphabetic` property, a function of the character alone.
pub assume_specification[ char::is_alphabetic ](c: char) -> (r: bool)
    ensures
        r == char_alphabetic(c),
;

/// A marker export starts with a header row when its first character is
/// alphabetic (a data row starts with a separator or a digit).  The
/// heuristic is inherited from the export formats this reads.
pub open spec fn has_header(s: Seq<char>) -> bool {
    s.len() > 0 && char_alphabetic(s[0])
}

// ---------------------------------------------------------------------------
// Lines and rows
// ---------------------------------------------------------------------------

/// A line with a trailing carriage return removed.
pub open spec fn strip_cr(l: Seq<char>) -> Seq<char> {
    if l.len() > 0 && l.last() == '\r' {
        l.drop_last()
    } else {
        l
    }
}

/// The lines of the export: split at newlines, each stripped of a trailing
/// carriage return, without the empty piece a trailing newline would leave.
pub open spec fn lines_of(s: Seq<char>) -> Seq<Seq<char>> {
    let raw = split_at_seps(s, '\n', '\n');
    let trimmed = if raw.len() > 0 && raw.last().len() == 0 {
        raw.drop_last()
    } else {
        raw
    };
    trimmed.map_values(|l: Seq<char>| strip_cr(l))
}

/// The data rows of the export: its lines, without the header row when one
/// is present.
pub open spec fn data_rows(s: Seq<char>) -> Seq<Seq<char>> {
    if has_header(s) {
        lines_of(s).skip(1)
    } else {
        lines_of(s)
    }
}

/// The marker-type field must contain this text for a row to count.
pub open spec fn cue_point_text() -> Seq<char> {
    seq!['C', 'u', 'e', ' ', 'P', 'o', 'i', 'n', 't']
}

/// What one row contributes, after splitting it at tabs and commas: fewer
/// than six fields is fatal; a foreign marker type is skipped; then both
/// time fields must parse and agree, and the row contributes its start.
pub open spec fn classify_spec(row: Seq<char>) -> RowOutcome {
    let fs = split_at_seps(row, '\t', ',');
    if fs.len() < 6 {
        RowOutcome::Malformed
    } else if !has_substring(fs[5], cue_point_text()) {
        RowOutcome::NotCue
    } else {
        match (parse_spec(fs[2]), parse_spec(fs[3])) {
            (Ok(a), Ok(b)) => if a == b {
                RowOutcome::Cue(a)
            } else {
                RowOutcome::NonZeroDuration
            },
            _ => RowOutcome::Malformed,
        }
    }
}

/// The cue instants the rows contribute, in row order.
pub open spec fn collected_cues(rows: Seq<Seq<char>>) -> Seq<Time>
    decreases rows.len(),
{
    if rows.len() == 0 {
        Seq::empty()
    } else {
        let rest = collected_cues(rows.skip(1));
        match classify_spec(rows[0]) {
            RowOutcome::Cue(t) => seq![t] + rest,
            _ => rest,
        }
    }
}

/// Some row is fatally malformed.
pub open spec fn any_malformed(rows: Seq<Seq<char>>) -> bool {
    exists|i: int|
        0 <= i < rows.len() && classify_spec(#[trigger] rows[i]) == RowOutcome::Malformed
}

// ---------------------------------------------------------------------------
// Order and lookup, in specification
// ---------------------------------------------------------------------------

/// Ascending lexicographic order.
pub open spec fn sorted_le(s: Seq<Time>) -> bool {
    forall|i: int, j: int| 0 <= i <= j < s.len() ==> spec_le(#[trigger] s[i], #[trigger] s[j])
}

/// The highest 1-based index whose cue's position is at or before `pos`,
/// or 0 when every cue lies after `pos`.
pub open spec fn last_reached(s: Seq<Time>, pos: int, fps: int) -> int
    decreases s.len(),
{
    if s.len() == 0 {
        0
    } else if pos >= ticks(s.last(), fps) {
        s.len() as int
    } else {
        last_reached(s.drop_last(), pos, fps)
    }
}

/// The cue index a position has reached: the highest cue at or before
/// `pos`, with two boundary rules.  A position at or past the last cue
/// counts as past the whole table (`len + 1`), and a position before every
/// cue (or an empty table) is 0, the implicit start of the video.
pub open spec fn locate_spec(s: Seq<Time>, pos: int, fps: int) -> int {
    if s.len() > 0 && pos >= ticks(s.last(), fps) {
        s.len() as int + 1
    } else {
        last_reached(s, pos, fps)
    }
}

/// The instant of a 1-based cue index: 0 is the start of the video, indices
/// beyond the table are the end of the timeline.
pub open spec fn get_spec(s: Seq<Time>, idx: int) -> Time {
    if idx == 0 {
        zero_spec()
    } else if 1 <= idx && idx <= s.len() {
        s[idx - 1]
    } else {
        end_spec()
    }
}

// ---------------------------------------------------------------------------
// The table
// ---------------------------------------------------------------------------

/// A collection of time cues, sorted ascending, built once from a marker
/// export and read-only afterwards.
pub struct Cues {
    inner: Vec<Time>,
}

impl View for Cues {
    type V = Seq<Time>;

    closed spec fn view(&self) -> Seq<Time> {
        self.inner@
    }
}

impl Cues {
    /// The table invariant: ascending order, and small enough that an index
    /// one past the table still fits a machine word.
    pub open spec fn wf(self) -> bool {
        sorted_le(self@) && self@.len() + 2 < usize::MAX
    }

    /// The number of cues (the implicit start and end are not counted).
    pub fn len(&self) -> (n: usize)
        ensures
            n == self@.len(),
    {
        self.inner.len()
    }

    /// The cue at a 1-based index: index 0 is `00:00:00:00`, an index past
    /// the table is the end of the timeline.  Out-of-range indices clamp
    /// rather than fail: seek logic relies on "past the last cue" meaning
    /// "seek to the end".
    pub fn get(&self, idx: usize) -> (t: Time)
        ensures
            t == get_spec(self@, idx as int),
    {
        if idx == 0 {
            return Time::zero();
        }
        if idx <= self.inner.len() {
            self.inner[idx - 1]
        } else {
            Time::end()
        }
    }
}

// ---------------------------------------------------------------------------
// Lookup lemmas
// ---------------------------------------------------------------------------

/// What `last_reached` returns: an index in range, every cue above it lies
/// strictly after `pos`, and the cue at it (when there is one) does not.
pub proof fn lemma_last_reached_props(s: Seq<Time>, pos: int, fps: int)
    ensures
        0 <= last_reached(s, pos, fps) <= s.len(),
        forall|k: int|
            last_reached(s, pos, fps) <= k < s.len() ==> pos < ticks(#[trigger] s[k], fps),
        last_reached(s, pos, fps) > 0 ==> pos >= ticks(s[last_reached(s, pos, fps) - 1], fps),
    decreases s.len(),
{
    if s.len() > 0 && pos < ticks(s.last(), fps) {
        lemma_last_reached_props(s.drop_last(), pos, fps);
        assert forall|k: int|
            last_reached(s, pos, fps) <= k < s.len() implies pos < ticks(
            #[trigger] s[k],
            fps,
        ) by {
            if k < s.len() - 1 {
                assert(s.drop_last()[k] == s[k]);
            }
        }
        if last_reached(s, pos, fps) > 0 {
            assert(s.drop_last()[last_reached(s, pos, fps) - 1] == s[last_reached(s, pos, fps)
                - 1]);
        }
    }
}

/// An index with a reached cue below it and only unreached cues from it on
/// is exactly what `last_reached` returns.
pub proof fn lemma_last_reached_at(s: Seq<Time>, pos: int, fps: int, j: int)
    requires
        0 <= j <= s.len(),
        j > 0 ==> pos >= ticks(s[j - 1], fps),
        forall|k: int| j <= k < s.len() ==> pos < ticks(#[trigger] s[k], fps),
    ensures
        last_reached(s, pos, fps) == j,
    decreases s.len(),
{
    if s.len() == 0 {
    } else if pos >= ticks(s.last(), fps) {
        assert(j == s.len());
    } else {
        assert(j < s.len());
        assert(forall|k: int|
            j <= k < s.drop_last().len() ==> pos < ticks(#[trigger] s.drop_last()[k], fps));
        if j > 0 {
            assert(s.drop_last()[j - 1] == s[j - 1]);
        }
        lemma_last_reached_at(s.drop_last(), pos, fps, j);
    }
}

/// A lookup result always lies between 0 and one past the table.
pub proof fn lemma_locate_bounds(s: Seq<Time>, pos: int, fps: int)
    ensures
        0 <= locate_spec(s, pos, fps) <= s.len() + 1,
{
    lemma_last_reached_props(s, pos, fps);
}

proof fn lemma_last_reached_monotonic(s: Seq<Time>, p1: int, p2: int, fps: int)
    requires
        p1 <= p2,
    ensures
        last_reached(s, p1, fps) <= last_reached(s, p2, fps),
    decreases s.len(),
{
    if s.len() > 0 && p2 < ticks(s.last(), fps) {
        lemma_last_reached_monotonic(s.drop_last(), p1, p2, fps);
    } else if s.len() > 0 && p1 < ticks(s.last(), fps) {
        lemma_last_reached_props(s, p1, fps);
    }
}

/// For a fixed table and rate, the located index never decreases as the
/// position grows.
pub proof fn lemma_locate_monotonic(s: Seq<Time>, p1: int, p2: int, fps: int)
    requires
        p1 <= p2,
    ensures
        locate_spec(s, p1, fps) <= locate_spec(s, p2, fps),
{
    lemma_last_reached_monotonic(s, p1, p2, fps);
    lemma_last_reached_props(s, p1, fps);
    lemma_last_reached_props(s, p2, fps);
}

/// Index 0 is always the start of the video, and any index past the table
/// is always the end of the timeline.
pub proof fn lemma_get_edges(s: Seq<Time>, idx: int)
    ensures
        get_spec(s, 0) == zero_spec(),
        idx > s.len() ==> get_spec(s, idx) == end_spec(),
{
}

/// Looking up the position of a stored cue finds that cue again: in a
/// sorted table of in-range timecodes with frame numbers below the rate,
/// a cue before the last that differs from its successor locates to its
/// own index.  (The last cue is excluded: a position at or past it counts
/// as past the whole table by design.  A cue equal to its successor is
/// excluded too: the lookup answers with the highest of equal cues.)
pub proof fn lemma_locate_round_trip(s: Seq<Time>, i: int, fps: int)
    requires
        sorted_le(s),
        forall|k: int|
            0 <= k < s.len() ==> in_range(#[trigger] s[k]) && (s[k].frames as int) < fps,
        1 <= i < s.len(),
        s[i - 1] != s[i],
    ensures
        locate_spec(s, ticks(s[i - 1], fps), fps) == i,
{
    let pos = ticks(s[i - 1], fps);
    crate::time::lemma_ticks_strictly_monotonic(s[i - 1], s[i], fps);
    assert forall|k: int| i <= k < s.len() implies pos < ticks(#[trigger] s[k], fps) by {
        crate::time::lemma_ticks_monotonic(s[i], s[k], fps);
    }
    lemma_last_reached_at(s, pos, fps, i);
    assert(pos < ticks(s[s.len() - 1], fps));
}

impl Cues {
    /// The 1-based index of the cue a position has reached or passed, the
    /// position given in frame ticks at rate `fps`.  A position before the
    /// first cue is 0; one at or past the last cue is `len + 1`.  A position
    /// exactly on a cue counts as having reached it: the engine reports
    /// rounded positions, and an exclusive rule would let a cue slip by
    /// unnoticed.
    pub fn current(&self, pos: u64, fps: u32) -> (r: usize)
        requires
            self@.len() + 1 < usize::MAX,
        ensures
            r as int == locate_spec(self@, pos as int, fps as int),
    {
        let n = self.inner.len();
        if n == 0 {
            return 0;
        }
        if pos >= self.inner[n - 1].as_frames(fps) {
            return n + 1;
        }
        let mut j: usize = n - 1;
        while j > 0
            invariant
                0 <= j <= n - 1,
                n == self@.len(),
                forall|k: int| j <= k < n ==> (pos as int) < ticks(#[trigger] self@[k], fps as int),
            decreases j,
    {
            if pos >= self.inner[j - 1].as_frames(fps) {
                proof {
                    lemma_last_reached_at(self@, pos as int, fps as int, j as int);
                }
                return j;
            }
            j = j - 1;
        }
        proof {
            lemma_last_reached_at(self@, pos as int, fps as int, 0);
        }
        0
    }
}

// ---------------------------------------------------------------------------
// Row classification
// ---------------------------------------------------------------------------

/// The characters of the required marker-type text.
fn cue_point_chars() -> (v: Vec<char>)
    ensures
        v@ =~= cue_point_text(),
{
    let mut v: Vec<char> = Vec::new();
    v.push('C');
    v.push('u');
    v.push('e');
    v.push(' ');
    v.push('P');
    v.push('o');
    v.push('i');
    v.push('n');
    v.push('t');
    v
}

/// Classifies one already-decoded marker row.
fn classify_chars(row: &Vec<char>) -> (r: RowOutcome)
    ensures
        r == classify_spec(row@),
{
    let fields = split_chars(row, '\t', ',');
    let ghost fs = split_at_seps(row@, '\t', ',');
    proof {
        assert(views(fields@) == fs);
    }
    if fields.len() < 6 {
        return RowOutcome::Malformed;
    }
    let marker = cue_point_chars();
    proof {
        assert(fields@[5]@ == fs[5]);
    }
    if !crate::text::contains_sub(&fields[5], &marker) {
        return RowOutcome::NotCue;
    }
    proof {
        assert(fields@[2]@ == fs[2]);
        assert(fields@[3]@ == fs[3]);
    }
    let start = match Time::parse_chars(&fields[2]) {
        Ok(t) => t,
        Err(_) => {
            return RowOutcome::Malformed;
        },
    };
    let end = match Time::parse_chars(&fields[3]) {
        Ok(t) => t,
        Err(_) => {
            return RowOutcome::Malformed;
        },
    };
    if start == end {
        RowOutcome::Cue(start)
    } else {
        RowOutcome::NonZeroDuration
    }
}

/// Classifies one marker row, as [`Cues::from_str`] does while building the
/// table: the caller can report skipped rows.
pub fn classify_row(line: &str) -> (r: RowOutcome)
    ensures
        r == classify_spec(line@),
{
    let chars = str_to_chars(line);
    classify_chars(&chars)
}

// ---------------------------------------------------------------------------
// Building the table
// ---------------------------------------------------------------------------

proof fn lemma_le_total(a: Time, b: Time)
    ensures
        spec_le(a, b) || spec_le(b, a),
{
}

/// Collected cues of concatenated row sequences concatenate.
proof fn lemma_collected_concat(x: Seq<Seq<char>>, y: Seq<Seq<char>>)
    ensures
        collected_cues(x + y) == collected_cues(x) + collected_cues(y),
    decreases x.len(),
{
    if x.len() == 0 {
        assert(x + y =~= y);
        assert(collected_cues(x) + collected_cues(y) =~= collected_cues(y));
    } else {
        assert((x + y).skip(1) =~= x.skip(1) + y);
        assert((x + y)[0] == x[0]);
        lemma_collected_concat(x.skip(1), y);
        match classify_spec(x[0]) {
            RowOutcome::Cue(t) => {
                assert(seq![t] + (collected_cues(x.skip(1)) + collected_cues(y)) =~= (seq![t]
                    + collected_cues(x.skip(1))) + collected_cues(y));
            },
            _ => {},
        }
    }
}

/// A row sequence contributes at most one cue per row.
proof fn lemma_collected_len(rows: Seq<Seq<char>>)
    ensures
        collected_cues(rows).len() <= rows.len(),
    decreases rows.len(),
{
    if rows.len() > 0 {
        lemma_collected_len(rows.skip(1));
    }
}

/// Sorts cue instants ascending.  Equal instants are indistinguishable, so
/// the order of the result is determined by what it contains.
fn sort_times(v: Vec<Time>) -> (r: Vec<Time>)
    ensures
        sorted_le(r@),
        r@.to_multiset() == v@.to_multiset(),
        r@.len() == v@.len(),
{
    broadcast use vstd::seq_lib::group_to_multiset_ensures;

    let mut out: Vec<Time> = Vec::new();
    let mut i: usize = 0;
    proof {
        assert(v@.take(0) =~= Seq::<Time>::empty());
        assert(out@.to_multiset() =~= v@.take(0).to_multiset());
    }
    while i < v.len()
        invariant
            0 <= i <= v@.len(),
            out@.len() == i,
            sorted_le(out@),
            out@.to_multiset() == v@.take(i as int).to_multiset(),
        decreases v@.len() - i,
    {
        broadcast use vstd::seq_lib::group_to_multiset_ensures;

        let x = v[i];
        let mut k: usize = 0;
        while k < out.len() && out[k].le(&x)
            invariant
                0 <= k <= out@.len(),
                forall|j: int| 0 <= j < k ==> spec_le(#[trigger] out@[j], x),
            decreases out@.len() - k,
        {
            k = k + 1;
        }
        proof {
            if k < out@.len() {
                lemma_le_total(out@[k as int], x);
            }
        }
        let ghost oprev = out@;
        out.insert(k, x);
        proof {
            oprev.insert_ensures(k as int, x);
            assert(out@ == oprev.insert(k as int, x));
            // order: everything at or after the insertion point is at least x
            assert forall|p: int, q: int| 0 <= p <= q < out@.len() implies spec_le(
                #[trigger] out@[p],
                #[trigger] out@[q],
            ) by {
                if p < k && q < k {
                } else if p < k && q == k {
                } else if p < k && q > k {
                    assert(out@[q] == oprev[q - 1]);
                } else if p == k && q > k {
                    assert(out@[q] == oprev[q - 1]);
                    if k > 0 {
                        assert(spec_le(oprev[k - 1], oprev[q - 1]));
                    }
                    assert(spec_le(x, oprev[k as int]));
                    assert(spec_le(oprev[k as int], oprev[q - 1]));
                } else if p == k && q == k {
                } else if p > k {
                    assert(out@[p] == oprev[p - 1]);
                    if q > k {
                        assert(out@[q] == oprev[q - 1]);
                    }
                }
            }
            // contents: inserting x adds exactly x
            assert(oprev.insert(k as int, x).to_multiset() =~= oprev.to_multiset().insert(x)) by {
                assert(oprev.insert(k as int, x) == oprev.subrange(0, k as int).push(x)
                    + oprev.subrange(k as int, oprev.len() as int));
                vstd::seq_lib::lemma_multiset_commutative(
                    oprev.subrange(0, k as int).push(x),
                    oprev.subrange(k as int, oprev.len() as int),
                );
                vstd::seq_lib::lemma_multiset_commutative(
                    oprev.subrange(0, k as int),
                    oprev.subrange(k as int, oprev.len() as int),
                );
                assert(oprev.subrange(0, k as int) + oprev.subrange(k as int, oprev.len() as int)
                    =~= oprev);
                assert(oprev.subrange(0, k as int).push(x).to_multiset() =~= oprev.subrange(
                    0,
                    k as int,
                ).to_multiset().insert(x));
                assert(oprev.subrange(0, k as int).to_multiset().insert(x).add(
                    oprev.subrange(k as int, oprev.len() as int).to_multiset(),
                ) =~= oprev.to_multiset().insert(x));
            }
            assert(v@.take(i + 1).drop_last() =~= v@.take(i as int));
            assert(v@.take(i + 1) =~= v@.take(i as int).push(x));
            assert(v@.take(i + 1).to_multiset() =~= v@.take(i as int).to_multiset().insert(x));
        }
        i = i + 1;
    }
    proof {
        assert(v@.take(v@.len() as int) =~= v@);
    }
    out
}

/// Copies the first `n` characters of a line (dropping a trailing carriage
/// return needs a copy of all but the last character).
fn prefix_copy(v: &Vec<char>, n: usize) -> (r: Vec<char>)
    requires
        n <= v@.len(),
    ensures
        r@ == v@.take(n as int),
{
    let mut r: Vec<char> = Vec::new();
    let mut i: usize = 0;
    while i < n
        invariant
            0 <= i <= n <= v@.len(),
            r@ =~= v@.take(i as int),
        decreases n - i,
    {
        r.push(v[i]);
        i = i + 1;
    }
    assert(r@ =~= v@.take(n as int));
    r
}

impl Cues {
    /// Builds the cue table from the text of a marker export.
    ///
    /// The export is split into lines; a header line (first character of the
    /// input alphabetic) is skipped.  Each remaining row is classified as
    /// [`classify_spec`] says: cue rows contribute their instant, foreign
    /// and non-instant rows are skipped, and a malformed row fails the whole
    /// load.  The collected instants are then sorted ascending.
    ///
    /// The input must not be empty, and must leave room to count one line
    /// per character plus the implicit start and end cues.
    #[verifier::rlimit(60)]
    pub fn from_str(s: &str) -> (r: Result<Cues, LoadError>)
        requires
            s@.len() > 0,
            s@.len() + 4 < usize::MAX,
        ensures
            match r {
                Ok(c) => {
                    &&& !any_malformed(data_rows(s@))
                    &&& c.wf()
                    &&& c@.to_multiset() == collected_cues(data_rows(s@)).to_multiset()
                },
                Err(e) => any_malformed(data_rows(s@)) && e == LoadError::Malformed,
            },
    {
        let chars = str_to_chars(s);
        let mut lines = split_chars(&chars, '\n', '\n');
        let ghost raw = split_at_seps(s@, '\n', '\n');
        proof {
            lemma_split_len(s@, '\n', '\n');
            assert(views(lines@) == raw);
        }
        let ghost trimmed = if raw.len() > 0 && raw.last().len() == 0 {
            raw.drop_last()
        } else {
            raw
        };
        if lines.len() > 0 && lines[lines.len() - 1].len() == 0 {
            proof {
                assert(lines@.last()@ == raw.last());
            }
            let _ = lines.pop();
            proof {
                assert(views(lines@) =~~= trimmed);
            }
        }
        proof {
            assert(views(lines@) == trimmed);
        }
        let ghost all_rows = trimmed.map_values(|l: Seq<char>| strip_cr(l));
        proof {
            assert(all_rows == lines_of(s@));
        }
        let header = chars[0].is_alphabetic();
        let start: usize = if header {
            1
        } else {
            0
        };
        let ghost rows = data_rows(s@);
        proof {
            crate::text::lemma_split_nonempty_input(s@, '\n', '\n');
            assert(lines@.len() >= 1);
            if header {
                assert(rows =~~= all_rows.skip(1));
            } else {
                assert(rows =~~= all_rows);
            }
        }
        let mut found: Vec<Time> = Vec::new();
        let mut idx: usize = start;
        proof {
            assert(rows.take(0) =~= Seq::<Seq<char>>::empty());
        }
        while idx < lines.len()
            invariant
                start <= idx <= lines@.len(),
                start <= 1,
                lines@.len() + 3 < usize::MAX,
                rows == data_rows(s@),
                rows.len() == lines@.len() - start,
                forall|k: int|
                    0 <= k < rows.len() ==> #[trigger] rows[k] == strip_cr(lines@[k + start]@),
                found@ == collected_cues(rows.take(idx - start)),
                !any_malformed(rows.take(idx - start)),
            decreases lines@.len() - idx,
        {
            let line = &lines[idx];
            let m: usize = if line.len() > 0 && line[line.len() - 1] == '\r' {
                line.len() - 1
            } else {
                line.len()
            };
            let row = prefix_copy(line, m);
            proof {
                if line@.len() > 0 && line@.last() == '\r' {
                    assert(line@.take(m as int) =~= line@.drop_last());
                } else {
                    assert(line@.take(m as int) =~= line@);
                }
                assert(line@ == lines@[idx as int]@);
                assert(rows[idx - start] == strip_cr(lines@[idx as int]@));
                assert(row@ == rows[idx - start]);
            }
            let ghost prefix = rows.take(idx - start);
            let ghost prefix1 = rows.take(idx + 1 - start);
            proof {
                assert(prefix1 =~= prefix + seq![rows[idx - start]]);
                lemma_collected_concat(prefix, seq![rows[idx - start]]);
                assert(collected_cues(seq![rows[idx - start]]) == {
                    let one = seq![rows[idx - start]];
                    match classify_spec(one[0]) {
                        RowOutcome::Cue(t) => seq![t] + collected_cues(one.skip(1)),
                        _ => collected_cues(one.skip(1)),
                    }
                });
                assert(seq![rows[idx - start]].skip(1) =~= Seq::<Seq<char>>::empty());
                assert forall|k: int| 0 <= k < prefix1.len() implies classify_spec(
                    #[trigger] prefix1[k],
                ) == classify_spec(rows[k]) by {
                    assert(prefix1[k] == rows[k]);
                }
            }
            match classify_chars(&row) {
                RowOutcome::Cue(t) => {
                    found.push(t);
                    proof {
                        assert(found@ =~= collected_cues(prefix) + seq![t]);
                    }
                },
                RowOutcome::Malformed => {
                    proof {
                        assert(classify_spec(rows[idx - start]) == RowOutcome::Malformed);
                    }
                    return Err(LoadError::Malformed);
                },
                _ => {
                    proof {
                        assert(collected_cues(prefix1) =~= collected_cues(prefix));
                    }
                },
            }
            idx = idx + 1;
        }
        proof {
            assert(rows.take(lines@.len() - start) =~= rows);
            lemma_collected_len(rows);
        }
        let sorted = sort_times(found);
        let cues = Cues { inner: sorted };
        proof {
            broadcast use vstd::seq_lib::group_to_multiset_ensures;

        }
        Ok(cues)
    }
}

} // verus!
