//! Character-sequence utilities shared by the timecode parser and the
//! marker-row loader: splitting on separator characters, decimal fields,
//! and substring search, each with an exact specification.

use vstd::prelude::*;
use vstd::string::*;

verus! {

// ---------------------------------------------------------------------------
// Decimal digits
// ---------------------------------------------------------------------------

/// `c` is an ASCII decimal digit.
pub open spec fn is_digit(c: char) -> bool {
    48 <= c as int && c as int <= 57
}

/// Numeric value of a digit character.
pub open spec fn digit_val(c: char) -> int {
    c as int - 48
}

/// Every character of `s` is a decimal digit.
pub open spec fn all_digits(s: Seq<char>) -> bool {
    forall|i: int| 0 <= i < s.len() ==> is_digit(#[trigger] s[i])
}

/// The value of a digit string read in base ten.
pub open spec fn digits_val(s: Seq<char>) -> int
    decreases s.len(),
{
    if s.len() == 0 {
        0
    } else {
        digits_val(s.drop_last()) * 10 + digit_val(s.last())
    }
}

pub proof fn lemma_digits_val_nonneg(s: Seq<char>)
    requires
        all_digits(s),
    ensures
        digits_val(s) >= 0,
    decreases s.len(),
{
    if s.len() > 0 {
        assert(all_digits(s.drop_last()));
        lemma_digits_val_nonneg(s.drop_last());
    }
}

/// Reading more digits never decreases the value.
pub proof fn lemma_digits_val_prefix(s: Seq<char>, i: int)
    requires
        all_digits(s),
        0 <= i <= s.len(),
    ensures
        digits_val(s.take(i)) <= digits_val(s),
    decreases s.len() - i,
{
    if i < s.len() {
        let t = s.take(i + 1);
        assert(t.drop_last() =~= s.take(i));
        assert(all_digits(s.take(i)));
        lemma_digits_val_nonneg(s.take(i));
        assert(digits_val(t) == digits_val(s.take(i)) * 10 + digit_val(t.last()));
        lemma_digits_val_prefix(s, i + 1);
        assert(s.take(s.len() as int) =~= s);
    } else {
        assert(s.take(i) =~= s);
    }
}

// ---------------------------------------------------------------------------
// Splitting on separator characters
// ---------------------------------------------------------------------------

/// Split `s` at every occurrence of `a` or `b`, keeping empty pieces, as the
/// marker rows are split at tabs and commas.  The result always has at least
/// one piece; a separator-free string yields itself as the only piece.
pub open spec fn split_at_seps(s: Seq<char>, a: char, b: char) -> Seq<Seq<char>>
    decreases s.len(),
{
    if s.len() == 0 {
        seq![Seq::<char>::empty()]
    } else if s[0] == a || s[0] == b {
        seq![Seq::<char>::empty()] + split_at_seps(s.drop_first(), a, b)
    } else {
        let r = split_at_seps(s.drop_first(), a, b);
        seq![seq![s[0]] + r[0]] + r.skip(1)
    }
}

/// `s` contains neither separator.
pub open spec fn sep_free(s: Seq<char>, a: char, b: char) -> bool {
    forall|i: int| 0 <= i < s.len() ==> #[trigger] s[i] != a && s[i] != b
}

pub proof fn lemma_split_len(s: Seq<char>, a: char, b: char)
    ensures
        1 <= split_at_seps(s, a, b).len() <= s.len() + 1,
    decreases s.len(),
{
    if s.len() > 0 {
        lemma_split_len(s.drop_first(), a, b);
    }
}

/// A non-empty string splits into at least two pieces or one non-empty one.
pub proof fn lemma_split_nonempty_input(s: Seq<char>, a: char, b: char)
    ensures
        s.len() > 0 ==> split_at_seps(s, a, b).len() >= 2 || split_at_seps(s, a, b)[0].len() > 0,
{
    if s.len() > 0 {
        lemma_split_len(s.drop_first(), a, b);
    }
}

/// A separator-free string is one single piece.
pub proof fn lemma_split_sep_free(s: Seq<char>, a: char, b: char)
    requires
        sep_free(s, a, b),
    ensures
        split_at_seps(s, a, b) =~~= seq![s],
    decreases s.len(),
{
    if s.len() > 0 {
        assert(sep_free(s.drop_first(), a, b));
        lemma_split_sep_free(s.drop_first(), a, b);
        assert(seq![s[0]] + s.drop_first() =~= s);
    }
}

/// Splitting a string that starts with a separator-free piece followed by a
/// separator: the piece comes off whole.
pub proof fn lemma_split_concat(p: Seq<char>, c: char, rest: Seq<char>, a: char, b: char)
    requires
        sep_free(p, a, b),
        c == a || c == b,
    ensures
        split_at_seps(p + seq![c] + rest, a, b) =~~= seq![p] + split_at_seps(rest, a, b),
    decreases p.len(),
{
    let s = p + seq![c] + rest;
    if p.len() == 0 {
        assert(s =~= seq![c] + rest);
        assert(s[0] == c);
        assert(s.drop_first() =~= rest);
    } else {
        assert(s[0] == p[0]);
        assert(s.drop_first() =~= p.drop_first() + seq![c] + rest);
        assert(sep_free(p.drop_first(), a, b));
        lemma_split_concat(p.drop_first(), c, rest, a, b);
        let r = split_at_seps(s.drop_first(), a, b);
        assert(r =~~= seq![p.drop_first()] + split_at_seps(rest, a, b));
        assert(r[0] =~= p.drop_first());
        assert(seq![s[0]] + r[0] =~= p);
        assert(r.skip(1) =~~= split_at_seps(rest, a, b));
    }
}

// ---------------------------------------------------------------------------
// Decimal fields
// ---------------------------------------------------------------------------

/// The digits of a numeric field: an optional leading `+` sign is ignored.
pub open spec fn field_digits(f: Seq<char>) -> Seq<char> {
    if f.len() > 0 && f[0] == '+' {
        f.drop_first()
    } else {
        f
    }
}

/// `f` is a well-formed field for one timecode component: after the optional
/// sign, at least one digit, and a value of at most 255.
pub open spec fn field_ok(f: Seq<char>) -> bool {
    let d = field_digits(f);
    d.len() > 0 && all_digits(d) && digits_val(d) <= 255
}

/// Numeric value of a field (meaningful when `field_ok` holds).
pub open spec fn field_val(f: Seq<char>) -> int {
    digits_val(field_digits(f))
}

/// Parses one numeric field of a timecode.  Returns its value when the field
/// is well-formed and `None` otherwise.
pub fn parse_byte_field(f: &Vec<char>) -> (r: Option<u8>)
    ensures
        match r {
            Some(n) => field_ok(f@) && n as int == field_val(f@),
            None => !field_ok(f@),
        },
{
    let ghost d = field_digits(f@);
    let start: usize = if f.len() > 0 && f[0] == '+' {
        1
    } else {
        0
    };
    assert(d =~= f@.skip(start as int));
    if f.len() == start {
        return None;
    }
    let mut acc: u32 = 0;
    let mut j: usize = start;
    while j < f.len()
        invariant
            start <= j <= f.len(),
            d == field_digits(f@),
            d =~= f@.skip(start as int),
            all_digits(d.take(j - start)),
            acc as int == digits_val(d.take(j - start)),
            acc <= 255,
        decreases f.len() - j,
    {
        let c = f[j];
        if !('0' <= c && c <= '9') {
            assert(!is_digit(d[j - start]));
            return None;
        }
        let dv: u32 = (c as u32) - 48;
        proof {
            assert(dv as int == c as int - 48);
            let t = d.take(j + 1 - start);
            assert(t.drop_last() =~= d.take(j - start));
            assert(t.last() == c);
            assert(digits_val(t) == digits_val(t.drop_last()) * 10 + digit_val(t.last()));
            assert forall|k: int| 0 <= k < t.len() implies is_digit(#[trigger] t[k]) by {
                if k < j - start {
                    assert(t[k] == d.take(j - start)[k]);
                } else {
                    assert(t[k] == c);
                }
            }
        }
        acc = acc * 10 + dv;
        j = j + 1;
        if acc > 255 {
            proof {
                if all_digits(d) {
                    lemma_digits_val_prefix(d, j - start);
                }
            }
            return None;
        }
    }
    assert(d.take(f@.len() - start) =~= d);
    Some(acc as u8)
}

// ---------------------------------------------------------------------------
// Substring search
// ---------------------------------------------------------------------------

/// `sub` occurs contiguously somewhere in `s`.
pub open spec fn has_substring(s: Seq<char>, sub: Seq<char>) -> bool {
    exists|i: int|
        0 <= i && i + sub.len() <= s.len() && #[trigger] s.subrange(i, i + sub.len()) =~= sub
}

// ---------------------------------------------------------------------------
// Executable helpers
// ---------------------------------------------------------------------------

/// The characters of `s`, in order.
pub fn str_to_chars(s: &str) -> (v: Vec<char>)
    ensures
        v@ == s@,
{
    let n = s.unicode_len();
    let mut v: Vec<char> = Vec::new();
    let mut i: usize = 0;
    while i < n
        invariant
            n == s@.len(),
            0 <= i <= n,
            v@ =~= s@.take(i as int),
        decreases n - i,
    {
        v.push(s.get_char(i));
        i = i + 1;
    }
    assert(s@.take(n as int) =~= s@);
    v
}

/// The sequence of views of a vector of character vectors.
pub open spec fn views(r: Seq<Vec<char>>) -> Seq<Seq<char>> {
    r.map_values(|x: Vec<char>| x@)
}

/// The first piece of `ss` with `p` prepended to it.
spec fn cons_first(p: Seq<char>, ss: Seq<Seq<char>>) -> Seq<Seq<char>> {
    seq![p + ss[0]] + ss.skip(1)
}

proof fn lemma_cons_first_unit(ss: Seq<Seq<char>>)
    requires
        ss.len() >= 1,
    ensures
        cons_first(Seq::<char>::empty(), ss) =~~= ss,
{
    assert(Seq::<char>::empty() + ss[0] =~= ss[0]);
}

/// Splits `v` at every occurrence of `a` or `b`.
pub fn split_chars(v: &Vec<char>, a: char, b: char) -> (r: Vec<Vec<char>>)
    ensures
        views(r@) =~~= split_at_seps(v@, a, b),
{
    let mut done: Vec<Vec<char>> = Vec::new();
    let mut cur: Vec<char> = Vec::new();
    let mut i: usize = 0;
    proof {
        lemma_split_len(v@, a, b);
        lemma_cons_first_unit(split_at_seps(v@, a, b));
        assert(v@.skip(0) =~= v@);
    }
    while i < v.len()
        invariant
            0 <= i <= v@.len(),
            split_at_seps(v@, a, b) =~~= views(done@) + cons_first(
                cur@,
                split_at_seps(v@.skip(i as int), a, b),
            ),
        decreases v@.len() - i,
    {
        let ghost tail = v@.skip(i as int);
        let ghost rest = split_at_seps(v@.skip(i + 1), a, b);
        proof {
            assert(tail.len() > 0);
            assert(tail[0] == v@[i as int]);
            assert(tail.drop_first() =~= v@.skip(i + 1));
            lemma_split_len(v@.skip(i + 1), a, b);
        }
        let c = v[i];
        if c == a || c == b {
            proof {
                assert(split_at_seps(tail, a, b) =~~= seq![Seq::<char>::empty()] + rest);
                assert(cons_first(cur@, seq![Seq::<char>::empty()] + rest) =~~= seq![cur@]
                    + rest) by {
                    assert(cur@ + Seq::<char>::empty() =~= cur@);
                    assert((seq![Seq::<char>::empty()] + rest).skip(1) =~~= rest);
                }
                lemma_cons_first_unit(rest);
            }
            let ghost dprev = done@;
            let ghost cprev = cur@;
            done.push(cur);
            cur = Vec::new();
            proof {
                assert(views(done@) =~~= views(dprev) + seq![cprev]);
                assert(split_at_seps(v@, a, b) =~~= views(done@) + cons_first(
                    cur@,
                    split_at_seps(v@.skip(i + 1), a, b),
                ));
            }
        } else {
            proof {
                assert(split_at_seps(tail, a, b) =~~= seq![seq![c] + rest[0]] + rest.skip(1));
                assert(cons_first(cur@, split_at_seps(tail, a, b)) =~~= cons_first(
                    cur@.push(c),
                    rest,
                )) by {
                    assert(cur@ + (seq![c] + rest[0]) =~= cur@.push(c) + rest[0]);
                    assert((seq![seq![c] + rest[0]] + rest.skip(1)).skip(1) =~~= rest.skip(1));
                }
            }
            cur.push(c);
        }
        i = i + 1;
    }
    proof {
        assert(v@.skip(v@.len() as int) =~= Seq::<char>::empty());
        assert(split_at_seps(Seq::<char>::empty(), a, b) =~~= seq![Seq::<char>::empty()]);
        assert(cons_first(cur@, seq![Seq::<char>::empty()]) =~~= seq![cur@]) by {
            assert(cur@ + Seq::<char>::empty() =~= cur@);
            assert(seq![Seq::<char>::empty()].skip(1) =~~= Seq::<Seq<char>>::empty());
        }
    }
    let ghost dprev = done@;
    let ghost cprev = cur@;
    done.push(cur);
    proof {
        assert(views(done@) =~~= views(dprev) + seq![cprev]);
    }
    done
}

/// Whether `sub` occurs contiguously in `s`.
pub fn contains_sub(s: &Vec<char>, sub: &Vec<char>) -> (r: bool)
    ensures
        r == has_substring(s@, sub@),
{
    let n = s.len();
    let m = sub.len();
    if m > n {
        return false;
    }
    if m == 0 {
        proof {
            assert(s@.subrange(0, 0 + sub@.len() as int) =~= sub@);
        }
        return true;
    }
    let mut i: usize = 0;
    while i <= n - m
        invariant
            1 <= m <= n == s@.len(),
            m == sub@.len(),
            0 <= i <= n - m + 1,
            forall|k: int|
                0 <= k < i ==> #[trigger] s@.subrange(k, k + sub@.len()) != sub@,
        decreases n - i,
    {
        let mut j: usize = 0;
        let mut matched = true;
        while j < m
            invariant
                1 <= m <= n == s@.len(),
                m == sub@.len(),
                0 <= i <= n - m,
                0 <= j <= m,
                matched ==> forall|k: int| 0 <= k < j ==> s@[i + k] == sub@[k],
                !matched ==> s@.subrange(i as int, i + sub@.len()) != sub@,
            decreases m - j,
        {
            if s[i + j] != sub[j] {
                proof {
                    assert(s@.subrange(i as int, i + sub@.len())[j as int] != sub@[j as int]);
                }
                matched = false;
                j = m;
            } else {
                j = j + 1;
            }
        }
        if matched {
            proof {
                assert(s@.subrange(i as int, i + sub@.len()) =~= sub@);
            }
            return true;
        }
        i = i + 1;
    }
    proof {
        assert forall|k: int| 0 <= k && k + sub@.len() <= s@.len() implies #[trigger] s@.subrange(
            k,
            k + sub@.len(),
        ) != sub@ by {
            assert(k < i);
        }
    }
    false
}

} // verus!
