//! The executable sub-parsers, each proved to read exactly what the
//! corresponding grammar spec function assigns to the input.
//!
//! A parser takes the text and a character position and, on success, returns
//! the position after what it consumed together with the value read.

use vstd::prelude::*;
use vstd::string::StrSliceExecFns;

use crate::grammar::digits_len;
use crate::grammar::digits_value;
use crate::grammar::exp_len;
use crate::grammar::find_newline;
use crate::grammar::float_len;
use crate::grammar::hspace_len;
use crate::grammar::is_digit;
use crate::grammar::is_hspace;
use crate::grammar::is_trim_space;
use crate::grammar::lemma_digits_len_bounds;
use crate::grammar::lemma_digits_len_is;
use crate::grammar::lemma_digits_value_mono;
use crate::grammar::lemma_digits_value_step;
use crate::grammar::lemma_find_newline_at;
use crate::grammar::lemma_find_newline_bounds;
use crate::grammar::lemma_hspace_len_is;
use crate::grammar::lemma_trim_is;
use crate::grammar::mantissa_len;
use crate::grammar::sign_len;
use crate::grammar::spec_count_line;
use crate::grammar::spec_note;
use crate::grammar::spec_skip_comments;
use crate::grammar::spec_take_line;
use crate::grammar::spec_trim;
use crate::grammar::spec_uint;
use crate::grammar::SpecNote;
use crate::Error;
use crate::Note;

verus! {

fn is_digit_ch(c: char) -> (r: bool)
    ensures
        r == is_digit(c),
{
    let u = c as u32;
    48 <= u && u <= 57
}

fn is_hspace_ch(c: char) -> (r: bool)
    ensures
        r == is_hspace(c),
{
    c == ' ' || c == '\t'
}

fn is_trim_space_ch(c: char) -> (r: bool)
    ensures
        r == is_trim_space(c),
{
    c == ' ' || c == '\t' || c == '\r'
}

/// Position of the first line feed at or after `pos`, if any.
fn find_nl(s: &str, pos: usize) -> (r: Option<usize>)
    requires
        pos <= s@.len(),
    ensures
        match r {
            Some(j) => pos <= j < s@.len() && j < usize::MAX && find_newline(
                s@.skip(pos as int),
            ) == Some(j - pos),
            None => find_newline(s@.skip(pos as int)) is None,
        },
{
    let len = s.unicode_len();
    let mut i = pos;
    while i < len
        invariant
            pos <= i <= len,
            len == s@.len(),
            pos <= s@.len(),
            forall|k: int| pos <= k < i ==> s@[k] != '\n',
        decreases len - i,
    {
        if s.get_char(i) == '\n' {
            proof {
                assert(s@.skip(pos as int)[i - pos] == s@[i as int]);
                assert forall|k: int| 0 <= k < i - pos implies s@.skip(pos as int)[k]
                    != '\n' by {
                    assert(s@.skip(pos as int)[k] == s@[k + pos]);
                }
                lemma_find_newline_at(s@.skip(pos as int), i - pos);
            }
            return Some(i);
        }
        i = i + 1;
    }
    proof {
        lemma_find_newline_bounds(s@.skip(pos as int));
        match find_newline(s@.skip(pos as int)) {
            Some(j) => {
                assert(s@.skip(pos as int)[j] == s@[j + pos]);
            },
            None => {},
        }
    }
    None
}

/// Length of the digit run starting at `pos`.
fn scan_digits(s: &str, pos: usize) -> (n: usize)
    requires
        pos <= s@.len(),
    ensures
        pos + n <= s@.len(),
        n as int == digits_len(s@.skip(pos as int)),
{
    let len = s.unicode_len();
    let mut i = pos;
    while i < len
        invariant
            pos <= i <= len,
            len == s@.len(),
            forall|k: int| pos <= k < i ==> is_digit(s@[k]),
        ensures
            pos <= i <= len,
            len == s@.len(),
            forall|k: int| pos <= k < i ==> is_digit(s@[k]),
            i == len || !is_digit(s@[i as int]),
        decreases len - i,
    {
        if !is_digit_ch(s.get_char(i)) {
            break;
        }
        i = i + 1;
    }
    proof {
        assert forall|k: int| 0 <= k < i - pos implies is_digit(s@.skip(pos as int)[k]) by {
            assert(s@.skip(pos as int)[k] == s@[k + pos]);
        }
        if i < len {
            assert(s@.skip(pos as int)[i - pos] == s@[i as int]);
        }
        lemma_digits_len_is(s@.skip(pos as int), i - pos);
    }
    i - pos
}

/// Length of the horizontal-whitespace run starting at `pos`.
fn scan_hspace(s: &str, pos: usize) -> (n: usize)
    requires
        pos <= s@.len(),
    ensures
        pos + n <= s@.len(),
        n as int == hspace_len(s@.skip(pos as int)),
{
    let len = s.unicode_len();
    let mut i = pos;
    while i < len
        invariant
            pos <= i <= len,
            len == s@.len(),
            forall|k: int| pos <= k < i ==> is_hspace(s@[k]),
        ensures
            pos <= i <= len,
            len == s@.len(),
            forall|k: int| pos <= k < i ==> is_hspace(s@[k]),
            i == len || !is_hspace(s@[i as int]),
        decreases len - i,
    {
        if !is_hspace_ch(s.get_char(i)) {
            break;
        }
        i = i + 1;
    }
    proof {
        assert forall|k: int| 0 <= k < i - pos implies is_hspace(s@.skip(pos as int)[k]) by {
            assert(s@.skip(pos as int)[k] == s@[k + pos]);
        }
        if i < len {
            assert(s@.skip(pos as int)[i - pos] == s@[i as int]);
        }
        lemma_hspace_len_is(s@.skip(pos as int), i - pos);
    }
    i - pos
}

/// One line up to and including its line feed; returns the position after
/// the line feed and the trimmed content.
pub(crate) fn take_line(s: &str, pos: usize) -> (r: Result<(usize, String), Error>)
    requires
        pos <= s@.len(),
    ensures
        match r {
            Ok(pl) => pos <= pl.0 <= s@.len() && spec_take_line(s@.skip(pos as int)) == Some(
                (s@.skip(pl.0 as int), pl.1@),
            ),
            Err(_) => spec_take_line(s@.skip(pos as int)) is None,
        },
{
    match find_nl(s, pos) {
        None => Err(Error::new("line terminator not found")),
        Some(j) => {
            let mut a = pos;
            while a < j
                invariant
                    pos <= a <= j,
                    j < s@.len(),
                    forall|k: int| pos <= k < a ==> is_trim_space(s@[k]),
                ensures
                    pos <= a <= j,
                    forall|k: int| pos <= k < a ==> is_trim_space(s@[k]),
                    a == j || !is_trim_space(s@[a as int]),
                decreases j - a,
            {
                if !is_trim_space_ch(s.get_char(a)) {
                    break;
                }
                a = a + 1;
            }
            let mut b = j;
            while b > a
                invariant
                    a <= b <= j,
                    j < s@.len(),
                    forall|k: int| b <= k < j ==> is_trim_space(s@[k]),
                ensures
                    a <= b <= j,
                    forall|k: int| b <= k < j ==> is_trim_space(s@[k]),
                    b == a || !is_trim_space(s@[b - 1]),
                decreases b - a,
            {
                if !is_trim_space_ch(s.get_char(b - 1)) {
                    break;
                }
                b = b - 1;
            }
            let content = s.substring_char(a, b).to_owned();
            proof {
                let t = s@.skip(pos as int);
                let u = t.take(j - pos);
                assert(u =~= s@.subrange(pos as int, j as int));
                assert forall|k: int| 0 <= k < a - pos implies is_trim_space(u[k]) by {
                    assert(u[k] == s@[k + pos]);
                }
                assert forall|k: int| b - pos <= k < u.len() implies is_trim_space(u[k]) by {
                    assert(u[k] == s@[k + pos]);
                }
                if a < b {
                    assert(u[a - pos] == s@[a as int]);
                    assert(u[b - pos - 1] == s@[b - 1]);
                }
                lemma_trim_is(u, a - pos, b - pos);
                assert(u.subrange(a - pos, b - pos) =~= s@.subrange(a as int, b as int));
                assert(t.skip(j - pos + 1) =~= s@.skip(j + 1));
            }
            Ok((j + 1, content))
        },
    }
}

/// Zero or more comment lines starting at `pos`; returns the position of the
/// first line that does not begin with `!`.
pub(crate) fn many_comments(s: &str, pos: usize) -> (r: Result<usize, Error>)
    requires
        pos <= s@.len(),
    ensures
        match r {
            Ok(p2) => pos <= p2 <= s@.len() && spec_skip_comments(s@.skip(pos as int)) == Some(
                s@.skip(p2 as int),
            ),
            Err(_) => spec_skip_comments(s@.skip(pos as int)) is None,
        },
{
    let len = s.unicode_len();
    let mut p = pos;
    loop
        invariant
            pos <= p <= len,
            len == s@.len(),
            spec_skip_comments(s@.skip(pos as int)) == spec_skip_comments(s@.skip(p as int)),
        decreases len - p,
    {
        if p < len && s.get_char(p) == '!' {
            proof {
                assert(s@.skip(p as int)[0] == s@[p as int]);
            }
            match find_nl(s, p) {
                Some(j) => {
                    proof {
                        assert(s@.skip(p as int).skip(j - p + 1) =~= s@.skip(j + 1));
                    }
                    p = j + 1;
                },
                None => {
                    return Err(Error::new("line terminator not found"));
                },
            }
        } else {
            proof {
                if p < len {
                    assert(s@.skip(p as int)[0] == s@[p as int]);
                } else {
                    assert(s@.skip(p as int).len() == 0);
                }
            }
            return Ok(p);
        }
    }
}

/// An unsigned 64-bit integer literal starting at `pos`.  A digit run whose
/// value does not fit in 64 bits is an error, never a truncated value.
pub(crate) fn num_u64(s: &str, pos: usize) -> (r: Result<(usize, u64), Error>)
    requires
        pos <= s@.len(),
    ensures
        match r {
            Ok(pv) => pos <= pv.0 <= s@.len() && spec_uint(s@.skip(pos as int)) == Some(
                (s@.skip(pv.0 as int), pv.1),
            ),
            Err(_) => spec_uint(s@.skip(pos as int)) is None,
        },
{
    let ghost t = s@.skip(pos as int);
    let len = s.unicode_len();
    let n = scan_digits(s, pos);
    if n == 0 {
        return Err(Error::new("unsigned integer not found"));
    }
    let stop = pos + n;
    let mut i = pos;
    let mut val: u64 = 0;
    proof {
        assert(t.take(0) =~= Seq::<char>::empty());
        lemma_digits_len_bounds(t);
    }
    while i < stop
        invariant
            pos <= i <= stop,
            stop == pos + n,
            stop <= s@.len(),
            n as int == digits_len(t),
            t == s@.skip(pos as int),
            val == digits_value(t.take(i - pos)),
            forall|k: int| 0 <= k < digits_len(t) ==> is_digit(t[k]),
        decreases stop - i,
    {
        let c = s.get_char(i);
        proof {
            assert(t[i - pos] == s@[i as int]);
        }
        let d = (c as u32 - 48) as u64;
        let overflowed: bool;
        match val.checked_mul(10) {
            Some(v10) => match v10.checked_add(d) {
                Some(v2) => {
                    proof {
                        lemma_digits_value_step(t, i - pos);
                    }
                    val = v2;
                    overflowed = false;
                },
                None => {
                    overflowed = true;
                },
            },
            None => {
                overflowed = true;
            },
        }
        if overflowed {
            proof {
                lemma_digits_value_step(t, i - pos);
                lemma_digits_value_mono(t, i - pos + 1, n as int);
            }
            return Err(Error::new("number too large"));
        }
        i = i + 1;
    }
    proof {
        assert(t.skip(n as int) =~= s@.skip(stop as int));
    }
    Ok((stop, val))
}

/// Length of a floating-point literal starting at `pos`, zero when none
/// starts there.
#[verifier::rlimit(100)]
fn scan_float(s: &str, pos: usize) -> (n: usize)
    requires
        pos <= s@.len(),
    ensures
        pos + n <= s@.len(),
        n as int == float_len(s@.skip(pos as int)),
{
    let ghost t = s@.skip(pos as int);
    let len = s.unicode_len();
    let sl: usize = if pos < len {
        let c = s.get_char(pos);
        proof {
            assert(t[0] == s@[pos as int]);
        }
        if c == '+' || c == '-' {
            1
        } else {
            0
        }
    } else {
        0
    };
    proof {
        assert(sign_len(t) == sl as int);
    }
    let ghost tm = t.skip(sl as int);
    proof {
        assert(tm =~= s@.skip(pos + sl));
    }
    let d1 = scan_digits(s, pos + sl);
    let m: usize;
    if d1 > 0 {
        if pos + sl + d1 < len && s.get_char(pos + sl + d1) == '.' {
            proof {
                assert(tm[d1 as int] == s@[pos + sl + d1]);
                assert(tm.skip(d1 + 1) =~= s@.skip(pos + sl + d1 + 1));
            }
            let d2 = scan_digits(s, pos + sl + d1 + 1);
            m = d1 + 1 + d2;
        } else {
            proof {
                if pos + sl + d1 < len {
                    assert(tm[d1 as int] == s@[pos + sl + d1]);
                }
            }
            m = d1;
        }
    } else {
        if pos + sl < len && pos + sl + 1 < len && s.get_char(pos + sl) == '.' && is_digit_ch(
            s.get_char(pos + sl + 1),
        ) {
            proof {
                assert(tm[0] == s@[pos + sl]);
                assert(tm[1] == s@[pos + sl + 1]);
                assert(tm.skip(1) =~= s@.skip(pos + sl + 1));
            }
            let d2 = scan_digits(s, pos + sl + 1);
            m = 1 + d2;
        } else {
            proof {
                if pos + sl < len {
                    assert(tm[0] == s@[pos + sl]);
                }
                if pos + sl + 1 < len {
                    assert(tm[1] == s@[pos + sl + 1]);
                }
            }
            m = 0;
        }
    }
    proof {
        assert(m as int == mantissa_len(tm));
    }
    if m == 0 {
        return 0;
    }
    let e_start = pos + sl + m;
    let ghost te = t.skip(sl + m);
    proof {
        assert(te =~= s@.skip(e_start as int));
    }
    let el: usize;
    if e_start < len {
        let c = s.get_char(e_start);
        proof {
            assert(te[0] == s@[e_start as int]);
        }
        if c == 'e' || c == 'E' {
            let sl2: usize = if e_start + 1 < len {
                let c2 = s.get_char(e_start + 1);
                proof {
                    assert(te.skip(1)[0] == s@[e_start + 1]);
                }
                if c2 == '+' || c2 == '-' {
                    1
                } else {
                    0
                }
            } else {
                0
            };
            proof {
                assert(te.skip(1) =~= s@.skip(e_start + 1));
                assert(sign_len(te.skip(1)) == sl2 as int);
                assert(te.skip(1 + sl2) =~= s@.skip(e_start + 1 + sl2));
            }
            let d3 = scan_digits(s, e_start + 1 + sl2);
            if d3 > 0 {
                el = 1 + sl2 + d3;
            } else {
                el = 0;
            }
        } else {
            el = 0;
        }
    } else {
        el = 0;
    }
    proof {
        assert(el as int == exp_len(te));
        assert(float_len(t) == sl + m + el);
    }
    sl + m + el
}

/// One interval line: optional horizontal whitespace, then the cents form
/// (tried first) or the ratio form, with the rest of the line discarded.
pub(crate) fn note(s: &str, pos: usize) -> (r: Result<(usize, Note), Error>)
    requires
        pos <= s@.len(),
    ensures
        match r {
            Ok(pn) => pos <= pn.0 <= s@.len() && spec_note(s@.skip(pos as int)) == Some(
                (s@.skip(pn.0 as int), pn.1@),
            ),
            Err(_) => spec_note(s@.skip(pos as int)) is None,
        },
{
    let ghost t0 = s@.skip(pos as int);
    let len = s.unicode_len();
    let h = scan_hspace(s, pos);
    let q = pos + h;
    let ghost t = s@.skip(q as int);
    proof {
        assert(t0.skip(h as int) =~= t);
    }
    let fl = scan_float(s, q);
    let slash_next = q + fl < len && s.get_char(q + fl) == '/';
    proof {
        if q + fl < len {
            assert(t[fl as int] == s@[q + fl]);
        }
    }
    if fl > 0 && !slash_next {
        match take_line(s, q + fl) {
            Err(e) => {
                proof {
                    assert(t.skip(fl as int) =~= s@.skip(q + fl));
                }
                Err(e)
            },
            Ok((p2, _discarded)) => {
                let text = s.substring_char(q, q + fl).to_owned();
                proof {
                    assert(t.skip(fl as int) =~= s@.skip(q + fl));
                    assert(t.take(fl as int) =~= s@.subrange(q as int, (q + fl) as int));
                }
                Ok((p2, Note::Cents(text)))
            },
        }
    } else {
        match num_u64(s, q) {
            Err(e) => Err(e),
            Ok((p1, numerator)) => {
                if p1 < len && s.get_char(p1) == '/' {
                    proof {
                        assert(s@.skip(p1 as int)[0] == s@[p1 as int]);
                        assert(s@.skip(p1 as int).skip(1) =~= s@.skip(p1 + 1));
                    }
                    match num_u64(s, p1 + 1) {
                        Err(e) => Err(e),
                        Ok((p2, denominator)) => match take_line(s, p2) {
                            Err(e) => Err(e),
                            Ok((p3, _discarded)) => Ok(
                                (p3, Note::Ratio { numerator, denominator }),
                            ),
                        },
                    }
                } else {
                    proof {
                        if p1 < len {
                            assert(s@.skip(p1 as int)[0] == s@[p1 as int]);
                        }
                    }
                    Err(Error::new("interval is neither a cents value nor a ratio"))
                }
            },
        }
    }
}

/// The note-count line starting at `pos`.
pub(crate) fn note_count(s: &str, pos: usize) -> (r: Result<(usize, u64), Error>)
    requires
        pos <= s@.len(),
    ensures
        match r {
            Ok(pn) => pos <= pn.0 <= s@.len() && spec_count_line(s@.skip(pos as int)) == Some(
                (s@.skip(pn.0 as int), pn.1),
            ),
            Err(_) => spec_count_line(s@.skip(pos as int)) is None,
        },
{
    let ghost t = s@.skip(pos as int);
    let len = s.unicode_len();
    let h = scan_hspace(s, pos);
    let q = pos + h;
    proof {
        assert(q <= len);
        assert(t.skip(h as int) =~= s@.skip(q as int));
    }
    match num_u64(s, q) {
        Err(e) => Err(e),
        Ok((p1, n)) => match take_line(s, p1) {
            Err(e) => Err(e),
            Ok((p2, _discarded)) => Ok((p2, n)),
        },
    }
}

} // verus!
