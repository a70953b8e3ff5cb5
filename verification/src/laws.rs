//! Laws of the grammar: properties that hold of every input, stated over the
//! spec functions that the parser's contracts use.

use vstd::prelude::*;

use crate::grammar::all_digits;
use crate::grammar::all_hspace;
use crate::grammar::all_trim_space;
use crate::grammar::digits_len;
use crate::grammar::digits_value;
use crate::grammar::exp_len;
use crate::grammar::find_newline;
use crate::grammar::float_len;
use crate::grammar::hspace_len;
use crate::grammar::is_comment_line;
use crate::grammar::is_decimal_token;
use crate::grammar::is_digit;
use crate::grammar::is_hspace;
use crate::grammar::is_trim_space;
use crate::grammar::has_newline;
use crate::grammar::lemma_digits_len_bounds;
use crate::grammar::lemma_digits_len_is;
use crate::grammar::lemma_find_newline_at;
use crate::grammar::lemma_find_newline_bounds;
use crate::grammar::lemma_hspace_len_bounds;
use crate::grammar::lemma_hspace_len_is;
use crate::grammar::lemma_float_len_bounds;
use crate::grammar::lemma_mantissa_len_bounds;
use crate::grammar::mantissa_len;
use crate::grammar::sign_len;
use crate::grammar::spec_take_line;
use crate::grammar::spec_uint;
use crate::grammar::SpecNote;
use crate::grammar::spec_after_description;
use crate::grammar::spec_count_line;
use crate::grammar::spec_header;
use crate::grammar::spec_note;
use crate::grammar::spec_notes;
use crate::grammar::spec_parse;
use crate::grammar::spec_skip_comments;
use crate::grammar::spec_trim;
use crate::grammar::trim_end;
use crate::grammar::trim_start;

verus! {

/// How many notes remain to be read is exactly how many the repetition
/// yields.
proof fn lemma_spec_notes_len(s: Seq<char>, k: nat)
    requires
        spec_notes(s, k) is Some,
    ensures
        spec_notes(s, k).unwrap().1.len() == k,
    decreases k,
{
    if k > 0 {
        let t = spec_skip_comments(s).unwrap();
        let (r, _n) = spec_note(t).unwrap();
        lemma_spec_notes_len(r, (k - 1) as nat);
    }
}

/// Round-trip count: a successfully parsed scale holds exactly as many notes
/// as the count literal read from its header declares.
pub proof fn lemma_note_count_matches_header(s: Seq<char>)
    requires
        spec_parse(s) is Some,
    ensures
        spec_header(s) is Some,
        spec_parse(s).unwrap().notes.len() == spec_header(s).unwrap().2,
{
    let (t, _d, n) = spec_header(s).unwrap();
    lemma_spec_notes_len(t, n as nat);
}

/// Comment transparency at a skip point: prepending a comment line to the
/// input of the comment skipper changes its outcome in no way.
pub proof fn lemma_comment_transparent_skip(cl: Seq<char>, s: Seq<char>)
    requires
        is_comment_line(cl),
    ensures
        spec_skip_comments(cl + s) == spec_skip_comments(s),
{
    let u = cl + s;
    assert(u[0] == cl[0]);
    assert(u[cl.len() - 1] == cl.last());
    assert forall|k: int| 0 <= k < cl.len() - 1 implies u[k] != '\n' by {
        assert(u[k] == cl[k]);
    }
    lemma_find_newline_at(u, cl.len() - 1);
    assert(u.skip(cl.len() as int) =~= s);
}

/// Comment transparency before the description: a comment line at the head
/// of the file never changes the parsed scale.
pub proof fn lemma_comment_transparent_parse(cl: Seq<char>, s: Seq<char>)
    requires
        is_comment_line(cl),
    ensures
        spec_parse(cl + s) == spec_parse(s),
{
    lemma_comment_transparent_skip(cl, s);
}

/// Comment transparency before the note count: a comment line inserted after
/// the description never changes what the count line yields.
pub proof fn lemma_comment_transparent_after_description(cl: Seq<char>, s: Seq<char>)
    requires
        is_comment_line(cl),
    ensures
        spec_after_description(cl + s) == spec_after_description(s),
{
    lemma_comment_transparent_skip(cl, s);
}

/// Comment transparency before an interval: a comment line inserted where
/// intervals remain to be read never changes the notes that come out.
pub proof fn lemma_comment_transparent_notes(cl: Seq<char>, s: Seq<char>, k: nat)
    requires
        is_comment_line(cl),
        k > 0,
    ensures
        spec_notes(cl + s, k) == spec_notes(s, k),
{
    lemma_comment_transparent_skip(cl, s);
}

/// Trim whitespace prepended to a sequence does not change what trimming
/// keeps.
proof fn lemma_trim_start_pad(p: Seq<char>, t: Seq<char>)
    requires
        all_trim_space(p),
    ensures
        trim_start(p + t) == trim_start(t),
    decreases p.len(),
{
    if p.len() == 0 {
        assert(p + t =~= t);
    } else {
        assert((p + t)[0] == p[0]);
        assert((p + t).skip(1) =~= p.skip(1) + t);
        assert(forall|k: int| 0 <= k < p.skip(1).len() ==> is_trim_space(p.skip(1)[k]));
        lemma_trim_start_pad(p.skip(1), t);
    }
}

/// Trim whitespace appended to a sequence does not change what trimming
/// keeps.
proof fn lemma_trim_end_pad(t: Seq<char>, q: Seq<char>)
    requires
        all_trim_space(q),
    ensures
        trim_end(t + q) == trim_end(t),
    decreases q.len(),
{
    if q.len() == 0 {
        assert(t + q =~= t);
    } else {
        assert((t + q).last() == q.last());
        assert((t + q).drop_last() =~= t + q.drop_last());
        assert(forall|k: int| 0 <= k < q.drop_last().len() ==> is_trim_space(q.drop_last()[k]));
        lemma_trim_end_pad(t, q.drop_last());
    }
}

/// Appended trim whitespace also survives a leading trim unchanged.
proof fn lemma_trim_both_pad(t: Seq<char>, q: Seq<char>)
    requires
        all_trim_space(q),
    ensures
        trim_end(trim_start(t + q)) == trim_end(trim_start(t)),
    decreases t.len(),
{
    if t.len() == 0 {
        assert(t + q =~= q);
        lemma_trim_start_pad(q, Seq::<char>::empty());
        assert(q + Seq::<char>::empty() =~= q);
        assert(trim_start(q) == trim_start(Seq::<char>::empty()));
    } else if is_trim_space(t[0]) {
        assert((t + q)[0] == t[0]);
        assert((t + q).skip(1) =~= t.skip(1) + q);
        lemma_trim_both_pad(t.skip(1), q);
    } else {
        assert((t + q)[0] == t[0]);
        assert(trim_start(t + q) == t + q);
        assert(trim_start(t) == t);
        lemma_trim_end_pad(t, q);
    }
}

/// Whitespace tolerance of trimming: horizontal whitespace and carriage
/// returns around a span never change what trimming keeps, so surrounding
/// whitespace never reaches the parsed description.
pub proof fn lemma_trim_pad(p: Seq<char>, s: Seq<char>, q: Seq<char>)
    requires
        all_trim_space(p),
        all_trim_space(q),
    ensures
        spec_trim(p + s + q) == spec_trim(s),
{
    assert(p + s + q =~= p + (s + q));
    lemma_trim_start_pad(p, s + q);
    lemma_trim_both_pad(s, q);
}

/// An unsigned integer literal at the front of a sequence reads its digit
/// run and leaves the rest.
proof fn lemma_uint_at(ds: Seq<char>, tail: Seq<char>)
    requires
        all_digits(ds),
        ds.len() > 0,
        digits_value(ds) <= u64::MAX,
        tail.len() > 0,
        !is_digit(tail[0]),
    ensures
        spec_uint(ds + tail) == Some((tail, digits_value(ds) as u64)),
{
    let u = ds + tail;
    assert forall|k: int| 0 <= k < ds.len() implies is_digit(u[k]) by {
        assert(u[k] == ds[k]);
    }
    assert(u[ds.len() as int] == tail[0]);
    lemma_digits_len_is(u, ds.len() as int);
    assert(u.take(ds.len() as int) =~= ds);
    assert(u.skip(ds.len() as int) =~= tail);
}

/// A line holding only horizontal whitespace before its line feed is
/// consumed up to and including that line feed.
proof fn lemma_take_line_hspace(q: Seq<char>, rest: Seq<char>)
    requires
        all_hspace(q),
    ensures
        spec_take_line(q + seq!['\n'] + rest) is Some,
        spec_take_line(q + seq!['\n'] + rest).unwrap().0 == rest,
{
    let u = q + seq!['\n'] + rest;
    assert(u[q.len() as int] == '\n');
    assert forall|k: int| 0 <= k < q.len() implies u[k] != '\n' by {
        assert(u[k] == q[k]);
    }
    lemma_find_newline_at(u, q.len() as int);
    assert(u.skip(q.len() as int + 1) =~= rest);
}

/// A mantissa that spans a whole sequence still spans exactly it when more
/// text follows, provided that text starts with neither a digit nor a point.
proof fn lemma_mantissa_at(g: Seq<char>, tail: Seq<char>)
    requires
        mantissa_len(g) == g.len(),
        g.len() > 0,
        tail.len() > 0,
        !is_digit(tail[0]),
        tail[0] != '.',
    ensures
        mantissa_len(g + tail) == g.len(),
{
    let u = g + tail;
    let dg = digits_len(g);
    lemma_digits_len_bounds(g);
    assert forall|k: int| 0 <= k < dg implies is_digit(u[k]) by {
        assert(u[k] == g[k]);
    }
    if dg > 0 {
        if dg < g.len() {
            assert(g[dg] == '.');
            assert(u[dg] == g[dg]);
            lemma_digits_len_is(u, dg);
            let f = g.skip(dg + 1);
            lemma_digits_len_bounds(f);
            assert(f.len() == g.len() - dg - 1);
            assert(digits_len(f) == f.len());
            let fu = u.skip(dg + 1);
            assert(fu =~= f + tail);
            assert forall|k: int| 0 <= k < f.len() implies is_digit(fu[k]) by {
                assert(fu[k] == f[k]);
            }
            assert(fu[f.len() as int] == tail[0]);
            lemma_digits_len_is(fu, f.len() as int);
        } else {
            assert(u[dg] == tail[0]);
            lemma_digits_len_is(u, dg);
        }
    } else {
        assert(g.len() >= 2 && g[0] == '.' && is_digit(g[1]));
        assert(u[0] == g[0]);
        assert(u[1] == g[1]);
        lemma_digits_len_is(u, 0);
        let f = g.skip(1);
        lemma_digits_len_bounds(f);
        assert(digits_len(f) == f.len());
        let fu = u.skip(1);
        assert(fu =~= f + tail);
        assert forall|k: int| 0 <= k < f.len() implies is_digit(fu[k]) by {
            assert(fu[k] == f[k]);
        }
        assert(fu[f.len() as int] == tail[0]);
        lemma_digits_len_is(fu, f.len() as int);
    }
}

/// Disambiguation and whitespace tolerance for ratios: a line of two
/// unsigned integers joined by `/` and no decimal point, with any horizontal
/// whitespace around the pair, always parses as exactly that ratio.
pub proof fn lemma_ratio_line(
    p: Seq<char>,
    ds1: Seq<char>,
    ds2: Seq<char>,
    q: Seq<char>,
    rest: Seq<char>,
)
    requires
        all_hspace(p),
        all_digits(ds1),
        ds1.len() > 0,
        digits_value(ds1) <= u64::MAX,
        all_digits(ds2),
        ds2.len() > 0,
        digits_value(ds2) <= u64::MAX,
        all_hspace(q),
    ensures
        spec_note(p + ds1 + seq!['/'] + ds2 + q + seq!['\n'] + rest) == Some(
            (
                rest,
                SpecNote::Ratio {
                    numerator: digits_value(ds1) as u64,
                    denominator: digits_value(ds2) as u64,
                },
            ),
        ),
{
    let s = p + ds1 + seq!['/'] + ds2 + q + seq!['\n'] + rest;
    let t = ds1 + seq!['/'] + ds2 + q + seq!['\n'] + rest;
    assert(s =~= p + t);
    assert(t[0] == ds1[0]);
    assert forall|k: int| 0 <= k < p.len() implies is_hspace(s[k]) by {
        assert(s[k] == p[k]);
    }
    assert(s[p.len() as int] == t[0]);
    lemma_hspace_len_is(s, p.len() as int);
    assert(s.skip(p.len() as int) =~= t);
    // the cents attempt: the literal is the first digit run, continued by `/`
    let tail1 = seq!['/'] + ds2 + q + seq!['\n'] + rest;
    assert(t =~= ds1 + tail1);
    assert(tail1[0] == '/');
    assert forall|k: int| 0 <= k < ds1.len() implies is_digit(t[k]) by {
        assert(t[k] == ds1[k]);
    }
    assert(t[ds1.len() as int] == tail1[0]);
    lemma_digits_len_is(t, ds1.len() as int);
    assert(sign_len(t) == 0);
    assert(t.skip(0) =~= t);
    assert(mantissa_len(t) == ds1.len());
    assert(t.skip(ds1.len() as int) =~= tail1);
    assert(exp_len(tail1) == 0);
    assert(float_len(t) == ds1.len());
    // so the `/` is seen and the ratio form is read instead
    lemma_uint_at(ds1, tail1);
    let tail2 = q + seq!['\n'] + rest;
    assert(tail1.skip(1) =~= ds2 + tail2);
    assert(tail2[0] == if q.len() > 0 {
        q[0]
    } else {
        '\n'
    });
    lemma_uint_at(ds2, tail2);
    lemma_take_line_hspace(q, rest);
}

/// Disambiguation and whitespace tolerance for cents: a line holding one
/// bare decimal number, with any horizontal whitespace around it, always
/// parses as a cents value carrying exactly that text.
pub proof fn lemma_cents_line(p: Seq<char>, fs: Seq<char>, q: Seq<char>, rest: Seq<char>)
    requires
        all_hspace(p),
        is_decimal_token(fs),
        all_hspace(q),
    ensures
        spec_note(p + fs + q + seq!['\n'] + rest) == Some(
            (rest, SpecNote::Cents { text: fs }),
        ),
{
    let s = p + fs + q + seq!['\n'] + rest;
    let t = fs + q + seq!['\n'] + rest;
    assert(s =~= p + t);
    let sl = sign_len(fs);
    let g = fs.skip(sl);
    assert(t[0] == fs[0]);
    if sl == 0 {
        assert(g =~= fs);
        if digits_len(fs) > 0 {
            assert(is_digit(fs[0]));
        } else {
            assert(fs[0] == '.');
        }
    }
    assert(!is_hspace(fs[0]));
    assert forall|k: int| 0 <= k < p.len() implies is_hspace(s[k]) by {
        assert(s[k] == p[k]);
    }
    assert(s[p.len() as int] == t[0]);
    lemma_hspace_len_is(s, p.len() as int);
    assert(s.skip(p.len() as int) =~= t);
    // the decimal literal spans exactly the given token
    assert(sign_len(t) == sl);
    let tail = q + seq!['\n'] + rest;
    assert(tail[0] == if q.len() > 0 {
        q[0]
    } else {
        '\n'
    });
    assert(t.skip(sl) =~= g + tail);
    lemma_mantissa_at(g, tail);
    assert(mantissa_len(t.skip(sl)) == g.len());
    assert(t.skip(sl + g.len()) =~= tail);
    assert(exp_len(tail) == 0);
    let fl = float_len(t);
    assert(fl == fs.len());
    assert(t[fl] == tail[0]);
    lemma_take_line_hspace(q, rest);
    assert(t.skip(fs.len() as int) =~= tail);
    assert(t.take(fs.len() as int) =~= fs);
}

/// Numeric boundary: a minus sign where a ratio's numerator should stand is
/// a malformed line, never a coerced value.
pub proof fn lemma_negative_ratio_rejected(ds1: Seq<char>, ds2: Seq<char>, rest: Seq<char>)
    requires
        all_digits(ds1),
        ds1.len() > 0,
        all_digits(ds2),
        ds2.len() > 0,
    ensures
        spec_note(seq!['-'] + ds1 + seq!['/'] + ds2 + seq!['\n'] + rest) is None,
{
    let t = seq!['-'] + ds1 + seq!['/'] + ds2 + seq!['\n'] + rest;
    assert(t[0] == '-');
    assert(hspace_len(t) == 0);
    assert(t.skip(0) =~= t);
    // the cents attempt reads `-`, the digits, and stops at the `/`
    assert(sign_len(t) == 1);
    let tail1 = seq!['/'] + ds2 + seq!['\n'] + rest;
    let tm = t.skip(1);
    assert(tm =~= ds1 + tail1);
    assert forall|k: int| 0 <= k < ds1.len() implies is_digit(tm[k]) by {
        assert(tm[k] == ds1[k]);
    }
    assert(tm[ds1.len() as int] == tail1[0]);
    lemma_digits_len_is(tm, ds1.len() as int);
    assert(mantissa_len(tm) == ds1.len());
    assert(t.skip(1 + ds1.len() as int) =~= tail1);
    assert(exp_len(tail1) == 0);
    assert(float_len(t) == 1 + ds1.len());
    assert(t[1 + ds1.len() as int] == '/');
    // so the ratio form is tried, and `-` is no unsigned integer
    assert(digits_len(t) == 0);
}

/// Numeric boundary: a minus sign where a ratio's denominator should stand
/// is a malformed line, never a coerced value.
pub proof fn lemma_negative_denominator_rejected(
    ds1: Seq<char>,
    ds2: Seq<char>,
    rest: Seq<char>,
)
    requires
        all_digits(ds1),
        ds1.len() > 0,
        digits_value(ds1) <= u64::MAX,
        all_digits(ds2),
        ds2.len() > 0,
    ensures
        spec_note(ds1 + seq!['/'] + seq!['-'] + ds2 + seq!['\n'] + rest) is None,
{
    let t = ds1 + seq!['/'] + seq!['-'] + ds2 + seq!['\n'] + rest;
    assert(t[0] == ds1[0]);
    assert(hspace_len(t) == 0);
    assert(t.skip(0) =~= t);
    // the cents attempt stops at the `/`
    let tail1 = seq!['/'] + seq!['-'] + ds2 + seq!['\n'] + rest;
    assert(t =~= ds1 + tail1);
    assert(tail1[0] == '/');
    assert forall|k: int| 0 <= k < ds1.len() implies is_digit(t[k]) by {
        assert(t[k] == ds1[k]);
    }
    assert(t[ds1.len() as int] == tail1[0]);
    lemma_digits_len_is(t, ds1.len() as int);
    assert(sign_len(t) == 0);
    assert(mantissa_len(t) == ds1.len());
    assert(t.skip(ds1.len() as int) =~= tail1);
    assert(exp_len(tail1) == 0);
    assert(float_len(t) == ds1.len());
    // so the ratio form is tried, and `-` is no unsigned integer
    lemma_uint_at(ds1, tail1);
    assert(tail1.skip(1)[0] == '-');
    assert(digits_len(tail1.skip(1)) == 0);
}

/// Numeric boundary: a minus sign where the note count should stand is a
/// malformed file, never a coerced value.
pub proof fn lemma_negative_count_rejected(rest: Seq<char>)
    ensures
        spec_count_line(seq!['-'] + rest) is None,
{
    let t = seq!['-'] + rest;
    assert(t[0] == '-');
    assert(hspace_len(t) == 0);
    assert(t.skip(0) =~= t);
    assert(digits_len(t) == 0);
}

/// Numeric boundary and whitespace tolerance for the note count: any digit
/// run whose value fits in 64 bits, with any horizontal whitespace around
/// it, is accepted as the count.
pub proof fn lemma_count_line_accepts(
    p: Seq<char>,
    ds: Seq<char>,
    q: Seq<char>,
    rest: Seq<char>,
)
    requires
        all_hspace(p),
        all_digits(ds),
        ds.len() > 0,
        digits_value(ds) <= u64::MAX,
        all_hspace(q),
    ensures
        spec_count_line(p + ds + q + seq!['\n'] + rest) == Some(
            (rest, digits_value(ds) as u64),
        ),
{
    let s = p + ds + q + seq!['\n'] + rest;
    let t = ds + q + seq!['\n'] + rest;
    assert(s =~= p + t);
    assert(t[0] == ds[0]);
    assert forall|k: int| 0 <= k < p.len() implies is_hspace(s[k]) by {
        assert(s[k] == p[k]);
    }
    assert(s[p.len() as int] == t[0]);
    lemma_hspace_len_is(s, p.len() as int);
    assert(s.skip(p.len() as int) =~= t);
    let tail = q + seq!['\n'] + rest;
    assert(t =~= ds + tail);
    assert(tail[0] == if q.len() > 0 {
        q[0]
    } else {
        '\n'
    });
    lemma_uint_at(ds, tail);
    lemma_take_line_hspace(q, rest);
}

/// A line feed at a known position makes the sequence hold one.
proof fn lemma_has_newline_at(s: Seq<char>, j: int)
    requires
        0 <= j < s.len(),
        s[j] == '\n',
    ensures
        has_newline(s),
{
    lemma_find_newline_bounds(s);
}

/// Appending text after a sequence that holds a line feed moves the first
/// line feed nowhere.
proof fn lemma_find_newline_frame(s: Seq<char>, e: Seq<char>)
    requires
        has_newline(s),
    ensures
        find_newline(s + e) == find_newline(s),
{
    lemma_find_newline_bounds(s);
    let i = find_newline(s).unwrap();
    assert((s + e)[i] == s[i]);
    assert forall|k: int| 0 <= k < i implies (s + e)[k] != '\n' by {
        assert((s + e)[k] == s[k]);
    }
    lemma_find_newline_at(s + e, i);
}

/// Appending text after a complete line changes neither the line read nor
/// anything but the tail of the remainder.
proof fn lemma_take_line_frame(s: Seq<char>, e: Seq<char>)
    requires
        spec_take_line(s) is Some,
    ensures
        spec_take_line(s + e) is Some,
        spec_take_line(s + e).unwrap().0 == spec_take_line(s).unwrap().0 + e,
        spec_take_line(s + e).unwrap().1 == spec_take_line(s).unwrap().1,
{
    lemma_find_newline_frame(s, e);
    let i = find_newline(s).unwrap();
    lemma_find_newline_bounds(s);
    assert((s + e).take(i) =~= s.take(i));
    assert((s + e).skip(i + 1) =~= s.skip(i + 1) + e);
}

/// A digit run that stops before a line feed is unchanged by appended text.
proof fn lemma_digits_len_frame(s: Seq<char>, e: Seq<char>)
    requires
        has_newline(s),
    ensures
        digits_len(s + e) == digits_len(s),
{
    lemma_find_newline_bounds(s);
    let i = find_newline(s).unwrap();
    lemma_digits_len_bounds(s);
    let d = digits_len(s);
    if d > i {
        assert(is_digit(s[i]));
    }
    assert(d < s.len());
    assert forall|k: int| 0 <= k < d implies is_digit((s + e)[k]) by {
        assert((s + e)[k] == s[k]);
    }
    assert((s + e)[d] == s[d]);
    lemma_digits_len_is(s + e, d);
}

/// A horizontal-whitespace run that stops before a line feed is unchanged by
/// appended text.
proof fn lemma_hspace_len_frame(s: Seq<char>, e: Seq<char>)
    requires
        has_newline(s),
    ensures
        hspace_len(s + e) == hspace_len(s),
{
    lemma_find_newline_bounds(s);
    let i = find_newline(s).unwrap();
    lemma_hspace_len_bounds(s);
    let h = hspace_len(s);
    if h > i {
        assert(is_hspace(s[i]));
    }
    assert(h < s.len());
    assert forall|k: int| 0 <= k < h implies is_hspace((s + e)[k]) by {
        assert((s + e)[k] == s[k]);
    }
    assert((s + e)[h] == s[h]);
    lemma_hspace_len_is(s + e, h);
}

/// An unsigned integer literal before a line feed is unchanged by appended
/// text.
proof fn lemma_uint_frame(s: Seq<char>, e: Seq<char>)
    requires
        has_newline(s),
    ensures
        spec_uint(s) is Some ==> spec_uint(s + e) == Some(
            (spec_uint(s).unwrap().0 + e, spec_uint(s).unwrap().1),
        ),
        spec_uint(s) is None ==> spec_uint(s + e) is None,
{
    lemma_digits_len_frame(s, e);
    let d = digits_len(s);
    lemma_digits_len_bounds(s);
    assert((s + e).take(d) =~= s.take(d));
    assert((s + e).skip(d) =~= s.skip(d) + e);
}

/// Comment skipping that ends before the input does is unchanged by appended
/// text.
proof fn lemma_skip_comments_frame(s: Seq<char>, e: Seq<char>)
    requires
        spec_skip_comments(s) is Some,
        spec_skip_comments(s).unwrap().len() > 0,
    ensures
        spec_skip_comments(s + e) == Some(spec_skip_comments(s).unwrap() + e),
    decreases s.len(),
{
    if s.len() > 0 && s[0] == '!' {
        lemma_find_newline_bounds(s);
        let i = find_newline(s).unwrap();
        lemma_find_newline_frame(s, e);
        assert((s + e)[0] == s[0]);
        assert((s + e).skip(i + 1) =~= s.skip(i + 1) + e);
        lemma_skip_comments_frame(s.skip(i + 1), e);
    } else {
        assert((s + e)[0] == s[0]);
    }
}

/// A mantissa that stops before a line feed is unchanged by appended text.
proof fn lemma_mantissa_len_frame(s: Seq<char>, e: Seq<char>)
    requires
        has_newline(s),
    ensures
        mantissa_len(s + e) == mantissa_len(s),
{
    lemma_find_newline_bounds(s);
    let i = find_newline(s).unwrap();
    lemma_digits_len_frame(s, e);
    lemma_digits_len_bounds(s);
    let d = digits_len(s);
    if d > i {
        assert(is_digit(s[i]));
    }
    if d > 0 {
        assert((s + e)[d] == s[d]);
        if s[d] == '.' {
            assert(s.skip(d + 1)[i - d - 1] == s[i]);
            lemma_has_newline_at(s.skip(d + 1), i - d - 1);
            lemma_digits_len_frame(s.skip(d + 1), e);
            assert((s + e).skip(d + 1) =~= s.skip(d + 1) + e);
        }
    } else {
        assert((s + e)[0] == s[0]);
        if s.len() >= 2 && s[0] == '.' && is_digit(s[1]) {
            assert((s + e)[1] == s[1]);
            assert(s.skip(1)[i - 1] == s[i]);
            lemma_has_newline_at(s.skip(1), i - 1);
            lemma_digits_len_frame(s.skip(1), e);
            assert((s + e).skip(1) =~= s.skip(1) + e);
        } else {
            if s[0] == '.' {
                if s.len() < 2 {
                    assert(s[0] == '\n');
                } else {
                    assert((s + e)[1] == s[1]);
                }
            }
        }
    }
}

/// An exponent part that stops before a line feed is unchanged by appended
/// text.
proof fn lemma_exp_len_frame(s: Seq<char>, e: Seq<char>)
    requires
        has_newline(s),
    ensures
        exp_len(s + e) == exp_len(s),
{
    lemma_find_newline_bounds(s);
    let i = find_newline(s).unwrap();
    assert((s + e)[0] == s[0]);
    if s[0] == 'e' || s[0] == 'E' {
        assert(s.skip(1)[i - 1] == s[i]);
        lemma_has_newline_at(s.skip(1), i - 1);
        assert((s + e).skip(1) =~= s.skip(1) + e);
        let g = s.skip(1);
        let sl = sign_len(g);
        assert((g + e)[0] == g[0]);
        if sl == 1 {
            assert(g[0] != '\n');
        }
        assert(g.skip(sl)[i - 1 - sl] == g[i - 1]);
        lemma_has_newline_at(g.skip(sl), i - 1 - sl);
        lemma_digits_len_frame(g.skip(sl), e);
        assert((g + e).skip(sl) =~= g.skip(sl) + e);
        assert(s.skip(1 + sl) =~= g.skip(sl));
        assert((s + e).skip(1 + sl) =~= g.skip(sl) + e);
    }
}

/// A floating-point literal that stops before a line feed is unchanged by
/// appended text.
proof fn lemma_float_len_frame(s: Seq<char>, e: Seq<char>)
    requires
        has_newline(s),
    ensures
        float_len(s + e) == float_len(s),
{
    lemma_find_newline_bounds(s);
    let i = find_newline(s).unwrap();
    assert((s + e)[0] == s[0]);
    let sl = sign_len(s);
    if sl == 1 {
        assert(s[0] != '\n');
    }
    let g = s.skip(sl);
    assert(g[i - sl] == s[i]);
    lemma_has_newline_at(g, i - sl);
    lemma_mantissa_len_frame(g, e);
    assert((s + e).skip(sl) =~= g + e);
    let m = mantissa_len(g);
    assert(sign_len(s + e) == sl);
    assert(mantissa_len((s + e).skip(sl)) == m);
    if m > 0 {
        // the literal's characters are digits and a point, so it stops at or
        // before the line feed
        let ig = i - sl;
        lemma_digits_len_bounds(g);
        let d = digits_len(g);
        if d > ig {
            assert(is_digit(g[ig]));
        }
        if d > 0 {
            if d < g.len() && g[d] == '.' {
                let f = g.skip(d + 1);
                lemma_digits_len_bounds(f);
                if d == ig {
                    assert(g[ig] == '.');
                } else {
                    if digits_len(f) > ig - d - 1 {
                        assert(is_digit(f[ig - d - 1]));
                        assert(f[ig - d - 1] == g[ig]);
                    }
                }
            }
        } else {
            assert(g[0] == '.');
            let f = g.skip(1);
            lemma_digits_len_bounds(f);
            if digits_len(f) > ig - 1 {
                assert(is_digit(f[ig - 1]));
                assert(f[ig - 1] == g[ig]);
            }
        }
        assert(m <= ig);
        assert(g.skip(m)[ig - m] == g[ig]);
        lemma_has_newline_at(g.skip(m), ig - m);
        assert(s.skip(sl + m) =~= g.skip(m));
        lemma_exp_len_frame(g.skip(m), e);
        assert((s + e).skip(sl + m) =~= g.skip(m) + e);
        assert(exp_len((s + e).skip(sl + m)) == exp_len(s.skip(sl + m)));
        assert(float_len(s + e) == sl + m + exp_len(s.skip(sl + m)));
        assert(float_len(s) == sl + m + exp_len(s.skip(sl + m)));
    } else {
        lemma_mantissa_len_bounds(g);
        assert(float_len(s + e) == 0);
        assert(float_len(s) == 0);
    }
}

/// A successfully parsed interval line holds a line feed.
proof fn lemma_note_has_newline(s: Seq<char>)
    requires
        spec_note(s) is Some,
    ensures
        has_newline(s),
        s.len() > 0,
{
    let h = hspace_len(s);
    lemma_hspace_len_bounds(s);
    let t = s.skip(h);
    let fl = float_len(t);
    lemma_float_len_bounds(t);
    if fl > 0 && !(fl < t.len() && t[fl] == '/') {
        lemma_find_newline_bounds(t.skip(fl));
        let j = find_newline(t.skip(fl)).unwrap();
        assert(t.skip(fl)[j] == t[fl + j]);
        assert(t[fl + j] == s[h + fl + j]);
        lemma_has_newline_at(s, h + fl + j);
    } else {
        let d1 = digits_len(t);
        lemma_digits_len_bounds(t);
        let t1 = t.skip(d1);
        let d2 = digits_len(t1.skip(1));
        lemma_digits_len_bounds(t1.skip(1));
        let t2 = t1.skip(1).skip(d2);
        lemma_find_newline_bounds(t2);
        let j = find_newline(t2).unwrap();
        assert(t2[j] == t1.skip(1)[d2 + j]);
        assert(t1.skip(1)[d2 + j] == t1[1 + d2 + j]);
        assert(t1[1 + d2 + j] == t[d1 + 1 + d2 + j]);
        assert(t[d1 + 1 + d2 + j] == s[h + d1 + 1 + d2 + j]);
        lemma_has_newline_at(s, h + d1 + 1 + d2 + j);
    }
}

/// Appending text after a complete interval line changes neither the note
/// read nor anything but the tail of the remainder.
proof fn lemma_note_frame(s: Seq<char>, e: Seq<char>)
    requires
        spec_note(s) is Some,
    ensures
        spec_note(s + e) is Some,
        spec_note(s + e).unwrap().0 == spec_note(s).unwrap().0 + e,
        spec_note(s + e).unwrap().1 == spec_note(s).unwrap().1,
{
    lemma_note_has_newline(s);
    lemma_find_newline_bounds(s);
    let i = find_newline(s).unwrap();
    lemma_hspace_len_bounds(s);
    let h = hspace_len(s);
    lemma_hspace_len_frame(s, e);
    if h > i {
        assert(is_hspace(s[i]));
    }
    let t = s.skip(h);
    assert((s + e).skip(h) =~= t + e);
    let it = i - h;
    assert(t[it] == s[i]);
    lemma_has_newline_at(t, it);
    lemma_float_len_frame(t, e);
    let fl = float_len(t);
    lemma_float_len_bounds(t);
    if fl > 0 && !(fl < t.len() && t[fl] == '/') {
        lemma_find_newline_bounds(t.skip(fl));
        assert(t.skip(fl).len() > 0);
        assert((t + e)[fl] == t[fl]);
        lemma_take_line_frame(t.skip(fl), e);
        assert((t + e).skip(fl) =~= t.skip(fl) + e);
        assert((t + e).take(fl) =~= t.take(fl));
    } else {
        let d1 = digits_len(t);
        lemma_digits_len_bounds(t);
        let t1 = t.skip(d1);
        lemma_uint_frame(t, e);
        assert((t1 + e)[0] == t1[0]);
        if d1 > it {
            assert(is_digit(t[it]));
        }
        if it == d1 {
            assert(t[it] == '/');
        }
        assert(t1.skip(1)[it - d1 - 1] == t[it]);
        lemma_has_newline_at(t1.skip(1), it - d1 - 1);
        lemma_uint_frame(t1.skip(1), e);
        assert((t1 + e).skip(1) =~= t1.skip(1) + e);
        let d2 = digits_len(t1.skip(1));
        lemma_digits_len_bounds(t1.skip(1));
        let t2 = t1.skip(1).skip(d2);
        lemma_take_line_frame(t2, e);
        if fl > 0 {
            assert((t + e)[fl] == t[fl]);
        }
    }
}

/// A successfully read note-count line holds a line feed.
proof fn lemma_count_line_has_newline(s: Seq<char>)
    requires
        spec_count_line(s) is Some,
    ensures
        has_newline(s),
        s.len() > 0,
{
    let h = hspace_len(s);
    lemma_hspace_len_bounds(s);
    let t = s.skip(h);
    let d = digits_len(t);
    lemma_digits_len_bounds(t);
    let t2 = t.skip(d);
    lemma_find_newline_bounds(t2);
    let j = find_newline(t2).unwrap();
    assert(t2[j] == t[d + j]);
    assert(t[d + j] == s[h + d + j]);
    lemma_has_newline_at(s, h + d + j);
}

/// Appending text after a complete note-count line changes neither the count
/// nor anything but the tail of the remainder.
proof fn lemma_count_line_frame(s: Seq<char>, e: Seq<char>)
    requires
        spec_count_line(s) is Some,
    ensures
        spec_count_line(s + e) is Some,
        spec_count_line(s + e).unwrap().0 == spec_count_line(s).unwrap().0 + e,
        spec_count_line(s + e).unwrap().1 == spec_count_line(s).unwrap().1,
{
    lemma_count_line_has_newline(s);
    lemma_find_newline_bounds(s);
    let i = find_newline(s).unwrap();
    lemma_hspace_len_bounds(s);
    let h = hspace_len(s);
    lemma_hspace_len_frame(s, e);
    if h > i {
        assert(is_hspace(s[i]));
    }
    let t = s.skip(h);
    assert(t[i - h] == s[i]);
    lemma_has_newline_at(t, i - h);
    assert((s + e).skip(h) =~= t + e);
    lemma_uint_frame(t, e);
    let d = digits_len(t);
    lemma_digits_len_bounds(t);
    let t2 = t.skip(d);
    lemma_take_line_frame(t2, e);
}

/// Appending text after input that yielded all requested notes leaves those
/// notes unchanged.
proof fn lemma_notes_frame(s: Seq<char>, e: Seq<char>, k: nat)
    requires
        spec_notes(s, k) is Some,
    ensures
        spec_notes(s + e, k) is Some,
        spec_notes(s + e, k).unwrap().0 == spec_notes(s, k).unwrap().0 + e,
        spec_notes(s + e, k).unwrap().1 == spec_notes(s, k).unwrap().1,
    decreases k,
{
    if k > 0 {
        let t = spec_skip_comments(s).unwrap();
        lemma_note_has_newline(t);
        lemma_skip_comments_frame(s, e);
        lemma_note_frame(t, e);
        let r = spec_note(t).unwrap().0;
        lemma_notes_frame(r, e, (k - 1) as nat);
    }
}

/// No trailing-content error: whatever bytes follow a complete scale file,
/// the parse still succeeds and yields the very same scale.
pub proof fn lemma_parse_ignores_trailing(s: Seq<char>, e: Seq<char>)
    requires
        spec_parse(s) is Some,
    ensures
        spec_parse(s + e) == spec_parse(s),
{
    let t1 = spec_skip_comments(s).unwrap();
    lemma_find_newline_bounds(t1);
    lemma_skip_comments_frame(s, e);
    lemma_take_line_frame(t1, e);
    let t2 = spec_take_line(t1).unwrap().0;
    let t3 = spec_skip_comments(t2).unwrap();
    lemma_count_line_has_newline(t3);
    lemma_skip_comments_frame(t2, e);
    lemma_count_line_frame(t3, e);
    let t4 = spec_count_line(t3).unwrap().0;
    let n = spec_count_line(t3).unwrap().1;
    lemma_notes_frame(t4, e, n as nat);
}

} // verus!
