//! The mathematical model of the `.scl` grammar.
//!
//! Every spec function here consumes characters from the front of a
//! `Seq<char>` and, on success, yields the remaining sequence together with
//! the value read.  The executable parser is specified against these
//! functions, so the grammar below is the single statement of what the
//! library accepts and returns.

use vstd::prelude::*;

verus! {

/// Ghost model of one interval: a ratio of two unsigned integers, or a cents
/// offset kept as the verbatim decimal text.
pub enum SpecNote {
    Ratio { numerator: u64, denominator: u64 },
    Cents { text: Seq<char> },
}

/// Ghost model of a parsed scale.
pub struct SpecScale {
    pub description: Seq<char>,
    pub notes: Seq<SpecNote>,
}

/// Horizontal whitespace: what may precede a number on its line.
pub open spec fn is_hspace(c: char) -> bool {
    c == ' ' || c == '\t'
}

/// Whitespace trimmed from both ends of a line's content; a carriage return
/// before the line feed is legacy line-ending residue and is trimmed too.
pub open spec fn is_trim_space(c: char) -> bool {
    is_hspace(c) || c == '\r'
}

/// An ASCII decimal digit (code points 48 through 57).
pub open spec fn is_digit(c: char) -> bool {
    48 <= c as u32 && c as u32 <= 57
}

/// The numeric value of a digit; 0 for any other character.
pub open spec fn digit_val(c: char) -> int {
    if is_digit(c) {
        c as u32 - 48
    } else {
        0
    }
}

/// Index of the first line feed in `s`, if any.
pub open spec fn find_newline(s: Seq<char>) -> Option<int>
    decreases s.len(),
{
    if s.len() == 0 {
        None
    } else if s[0] == '\n' {
        Some(0int)
    } else {
        match find_newline(s.skip(1)) {
            Some(i) => Some(i + 1),
            None => None,
        }
    }
}

/// `s` without its leading trim whitespace.
pub open spec fn trim_start(s: Seq<char>) -> Seq<char>
    decreases s.len(),
{
    if s.len() > 0 && is_trim_space(s[0]) {
        trim_start(s.skip(1))
    } else {
        s
    }
}

/// `s` without its trailing trim whitespace.
pub open spec fn trim_end(s: Seq<char>) -> Seq<char>
    decreases s.len(),
{
    if s.len() > 0 && is_trim_space(s.last()) {
        trim_end(s.drop_last())
    } else {
        s
    }
}

/// `s` without surrounding trim whitespace.
pub open spec fn spec_trim(s: Seq<char>) -> Seq<char> {
    trim_end(trim_start(s))
}

/// One line: everything up to the first line feed, trimmed, with the line
/// feed itself consumed.  Fails when no line feed remains.
pub open spec fn spec_take_line(s: Seq<char>) -> Option<(Seq<char>, Seq<char>)> {
    match find_newline(s) {
        Some(i) => Some((s.skip(i + 1), spec_trim(s.take(i)))),
        None => None,
    }
}

/// Zero or more comment lines (lines beginning with `!`), discarded.  Fails
/// only when a comment line is missing its line feed.
pub open spec fn spec_skip_comments(s: Seq<char>) -> Option<Seq<char>>
    decreases s.len(),
    via spec_skip_comments_decreases
{
    if s.len() > 0 && s[0] == '!' {
        match find_newline(s) {
            Some(i) => spec_skip_comments(s.skip(i + 1)),
            None => None,
        }
    } else {
        Some(s)
    }
}

#[via_fn]
proof fn spec_skip_comments_decreases(s: Seq<char>) {
    if s.len() > 0 && s[0] == '!' {
        lemma_find_newline_bounds(s);
    }
}

/// Length of the run of digits at the front of `s`.
pub open spec fn digits_len(s: Seq<char>) -> int
    decreases s.len(),
{
    if s.len() > 0 && is_digit(s[0]) {
        1 + digits_len(s.skip(1))
    } else {
        0
    }
}

/// The base-ten value of a digit sequence.
pub open spec fn digits_value(s: Seq<char>) -> nat
    decreases s.len(),
{
    if s.len() == 0 {
        0
    } else {
        (digits_value(s.drop_last()) * 10 + digit_val(s.last())) as nat
    }
}

/// An unsigned integer literal: a non-empty digit run whose value fits in a
/// 64-bit unsigned integer.  A longer run whose value would not fit fails
/// rather than being truncated.
pub open spec fn spec_uint(s: Seq<char>) -> Option<(Seq<char>, u64)> {
    let n = digits_len(s);
    if n == 0 {
        None
    } else if digits_value(s.take(n)) > u64::MAX {
        None
    } else {
        Some((s.skip(n), digits_value(s.take(n)) as u64))
    }
}

/// Length of the run of horizontal whitespace at the front of `s`.
pub open spec fn hspace_len(s: Seq<char>) -> int
    decreases s.len(),
{
    if s.len() > 0 && is_hspace(s[0]) {
        1 + hspace_len(s.skip(1))
    } else {
        0
    }
}

/// Length of an optional leading sign.
pub open spec fn sign_len(s: Seq<char>) -> int {
    if s.len() > 0 && (s[0] == '+' || s[0] == '-') {
        1
    } else {
        0
    }
}

/// Length of a decimal mantissa at the front of `s`: either digits with an
/// optional point and optional fraction digits, or a point followed by at
/// least one digit.  Zero when no mantissa starts here.
pub open spec fn mantissa_len(s: Seq<char>) -> int {
    let d = digits_len(s);
    if d > 0 {
        if d < s.len() && s[d] == '.' {
            d + 1 + digits_len(s.skip(d + 1))
        } else {
            d
        }
    } else {
        if s.len() >= 2 && s[0] == '.' && is_digit(s[1]) {
            1 + digits_len(s.skip(1))
        } else {
            0
        }
    }
}

/// Length of an exponent part at the front of `s`: `e` or `E`, an optional
/// sign, and at least one digit.  Zero when no complete exponent starts here.
pub open spec fn exp_len(s: Seq<char>) -> int {
    if s.len() > 0 && (s[0] == 'e' || s[0] == 'E') {
        let sl = sign_len(s.skip(1));
        let d = digits_len(s.skip(1 + sl));
        if d > 0 {
            1 + sl + d
        } else {
            0
        }
    } else {
        0
    }
}

/// Length of a floating-point literal at the front of `s`: optional sign,
/// mantissa, optional exponent.  Zero when no literal starts here.
pub open spec fn float_len(s: Seq<char>) -> int {
    let sl = sign_len(s);
    let m = mantissa_len(s.skip(sl));
    if m == 0 {
        0
    } else {
        sl + m + exp_len(s.skip(sl + m))
    }
}

/// One interval line.  After optional horizontal whitespace the cents form is
/// tried first: a floating-point literal whose text is kept verbatim, with
/// the rest of the line discarded.  A literal continued by `/` is not a cents
/// value; only then is the ratio form read: an unsigned integer, `/`, and a
/// second unsigned integer, with the rest of the line discarded.
pub open spec fn spec_note(s: Seq<char>) -> Option<(Seq<char>, SpecNote)> {
    let h = hspace_len(s);
    let t = s.skip(h);
    let fl = float_len(t);
    if fl > 0 && !(fl < t.len() && t[fl] == '/') {
        match spec_take_line(t.skip(fl)) {
            Some((rest, _discarded)) => Some((rest, SpecNote::Cents { text: t.take(fl) })),
            None => None,
        }
    } else {
        match spec_uint(t) {
            Some((t1, numerator)) => if t1.len() > 0 && t1[0] == '/' {
                match spec_uint(t1.skip(1)) {
                    Some((t2, denominator)) => match spec_take_line(t2) {
                        Some((rest, _discarded)) => Some(
                            (rest, SpecNote::Ratio { numerator, denominator }),
                        ),
                        None => None,
                    },
                    None => None,
                }
            } else {
                None
            },
            None => None,
        }
    }
}

/// The note-count line: optional horizontal whitespace, an unsigned integer,
/// and the rest of the line discarded.
pub open spec fn spec_count_line(s: Seq<char>) -> Option<(Seq<char>, u64)> {
    let h = hspace_len(s);
    match spec_uint(s.skip(h)) {
        Some((t, n)) => match spec_take_line(t) {
            Some((rest, _discarded)) => Some((rest, n)),
            None => None,
        },
        None => None,
    }
}

/// Exactly `k` intervals, each preceded by zero or more comment lines.
pub open spec fn spec_notes(s: Seq<char>, k: nat) -> Option<(Seq<char>, Seq<SpecNote>)>
    decreases k,
{
    if k == 0 {
        Some((s, Seq::<SpecNote>::empty()))
    } else {
        match spec_skip_comments(s) {
            Some(t) => match spec_note(t) {
                Some((r, n)) => match spec_notes(r, (k - 1) as nat) {
                    Some((r2, ns)) => Some((r2, seq![n] + ns)),
                    None => None,
                },
                None => None,
            },
            None => None,
        }
    }
}

/// What follows the description: comment lines, then the note-count line.
pub open spec fn spec_after_description(s: Seq<char>) -> Option<(Seq<char>, u64)> {
    match spec_skip_comments(s) {
        Some(t) => spec_count_line(t),
        None => None,
    }
}

/// The file header: comment lines, the description line, comment lines, and
/// the note-count line.  Yields the remainder, the trimmed description, and
/// the declared note count.
pub open spec fn spec_header(s: Seq<char>) -> Option<(Seq<char>, Seq<char>, u64)> {
    match spec_skip_comments(s) {
        Some(t1) => match spec_take_line(t1) {
            Some((t2, desc)) => match spec_after_description(t2) {
                Some((t3, n)) => Some((t3, desc, n)),
                None => None,
            },
            None => None,
        },
        None => None,
    }
}

/// A whole scale file: the header followed by exactly the declared number of
/// intervals.  Whatever remains after the last interval is left unread.
pub open spec fn spec_parse(s: Seq<char>) -> Option<SpecScale> {
    match spec_header(s) {
        Some((t, desc, n)) => match spec_notes(t, n as nat) {
            Some((_rest, ns)) => Some((SpecScale { description: desc, notes: ns })),
            None => None,
        },
        None => None,
    }
}

/// Every character of `s` is a decimal digit.
pub open spec fn all_digits(s: Seq<char>) -> bool {
    forall|k: int| 0 <= k < s.len() ==> is_digit(s[k])
}

/// Every character of `s` is horizontal whitespace.
pub open spec fn all_hspace(s: Seq<char>) -> bool {
    forall|k: int| 0 <= k < s.len() ==> is_hspace(s[k])
}

/// Every character of `s` is trim whitespace.
pub open spec fn all_trim_space(s: Seq<char>) -> bool {
    forall|k: int| 0 <= k < s.len() ==> is_trim_space(s[k])
}

/// A complete comment line: `!`, then anything short of a line feed, then
/// the line feed.
pub open spec fn is_comment_line(cl: Seq<char>) -> bool {
    &&& cl.len() >= 2
    &&& cl[0] == '!'
    &&& cl.last() == '\n'
    &&& forall|k: int| 0 <= k < cl.len() - 1 ==> cl[k] != '\n'
}

/// A bare decimal number: an optional sign and a mantissa that spans the
/// whole sequence, with no exponent.
pub open spec fn is_decimal_token(s: Seq<char>) -> bool {
    &&& mantissa_len(s.skip(sign_len(s))) > 0
    &&& sign_len(s) + mantissa_len(s.skip(sign_len(s))) == s.len()
}

/// `s` holds at least one line feed.
pub open spec fn has_newline(s: Seq<char>) -> bool {
    find_newline(s) is Some
}

/// Where the first line feed is, what stands before it, and that nothing
/// before it is a line feed.
pub proof fn lemma_find_newline_bounds(s: Seq<char>)
    ensures
        match find_newline(s) {
            Some(i) => 0 <= i < s.len() && s[i] == '\n' && (forall|k: int|
                0 <= k < i ==> s[k] != '\n'),
            None => forall|k: int| 0 <= k < s.len() ==> s[k] != '\n',
        },
    decreases s.len(),
{
    if s.len() == 0 {
    } else if s[0] == '\n' {
    } else {
        lemma_find_newline_bounds(s.skip(1));
        match find_newline(s.skip(1)) {
            Some(i) => {
                assert(s[i + 1] == s.skip(1)[i]);
                assert forall|k: int| 0 <= k < i + 1 implies s[k] != '\n' by {
                    if k > 0 {
                        assert(s[k] == s.skip(1)[k - 1]);
                    }
                }
            },
            None => {
                assert forall|k: int| 0 <= k < s.len() implies s[k] != '\n' by {
                    if k > 0 {
                        assert(s[k] == s.skip(1)[k - 1]);
                    }
                }
            },
        }
    }
}

/// The first line feed is at `j` when `j` holds one and nothing before it
/// does.
pub proof fn lemma_find_newline_at(s: Seq<char>, j: int)
    requires
        0 <= j < s.len(),
        s[j] == '\n',
        forall|k: int| 0 <= k < j ==> s[k] != '\n',
    ensures
        find_newline(s) == Some(j),
    decreases j,
{
    if j > 0 {
        assert(s.skip(1)[j - 1] == s[j]);
        assert forall|k: int| 0 <= k < j - 1 implies s.skip(1)[k] != '\n' by {
            assert(s.skip(1)[k] == s[k + 1]);
        }
        lemma_find_newline_at(s.skip(1), j - 1);
    }
}

/// The digit run is a well-formed prefix: every character in it is a digit
/// and the character after it, if any, is not.
pub proof fn lemma_digits_len_bounds(s: Seq<char>)
    ensures
        0 <= digits_len(s) <= s.len(),
        forall|k: int| 0 <= k < digits_len(s) ==> is_digit(s[k]),
        digits_len(s) < s.len() ==> !is_digit(s[digits_len(s)]),
    decreases s.len(),
{
    if s.len() > 0 && is_digit(s[0]) {
        lemma_digits_len_bounds(s.skip(1));
        assert forall|k: int| 0 <= k < digits_len(s) implies is_digit(s[k]) by {
            if k > 0 {
                assert(s.skip(1)[k - 1] == s[k]);
            }
        }
        if digits_len(s) < s.len() {
            assert(s.skip(1)[digits_len(s) - 1] == s[digits_len(s)]);
        }
    }
}

/// Conversely, a digit prefix of length `n` ended by a non-digit is the
/// digit run.
pub proof fn lemma_digits_len_is(s: Seq<char>, n: int)
    requires
        0 <= n <= s.len(),
        forall|k: int| 0 <= k < n ==> is_digit(s[k]),
        n == s.len() || !is_digit(s[n]),
    ensures
        digits_len(s) == n,
    decreases s.len(),
{
    if s.len() > 0 && is_digit(s[0]) {
        assert(n > 0);
        assert forall|k: int| 0 <= k < n - 1 implies is_digit(s.skip(1)[k]) by {
            assert(s.skip(1)[k] == s[k + 1]);
        }
        if n - 1 < s.skip(1).len() {
            assert(s.skip(1)[n - 1] == s[n]);
        }
        lemma_digits_len_is(s.skip(1), n - 1);
    } else {
        assert(n == 0);
    }
}

/// Reading one more digit multiplies the value by ten and adds the digit.
pub proof fn lemma_digits_value_step(s: Seq<char>, i: int)
    requires
        0 <= i < s.len(),
    ensures
        digits_value(s.take(i + 1)) == digits_value(s.take(i)) * 10 + digit_val(s[i]),
{
    assert(s.take(i + 1).drop_last() =~= s.take(i));
    assert(s.take(i + 1).last() == s[i]);
}

/// The value of a digit prefix never shrinks as the prefix grows.
pub proof fn lemma_digits_value_mono(s: Seq<char>, i: int, j: int)
    requires
        0 <= i <= j <= s.len(),
    ensures
        digits_value(s.take(i)) <= digits_value(s.take(j)),
    decreases j - i,
{
    if i < j {
        lemma_digits_value_mono(s, i, j - 1);
        lemma_digits_value_step(s, j - 1);
    }
}

/// The horizontal-whitespace run is a well-formed prefix.
pub proof fn lemma_hspace_len_bounds(s: Seq<char>)
    ensures
        0 <= hspace_len(s) <= s.len(),
        forall|k: int| 0 <= k < hspace_len(s) ==> is_hspace(s[k]),
        hspace_len(s) < s.len() ==> !is_hspace(s[hspace_len(s)]),
    decreases s.len(),
{
    if s.len() > 0 && is_hspace(s[0]) {
        lemma_hspace_len_bounds(s.skip(1));
        assert forall|k: int| 0 <= k < hspace_len(s) implies is_hspace(s[k]) by {
            if k > 0 {
                assert(s.skip(1)[k - 1] == s[k]);
            }
        }
        if hspace_len(s) < s.len() {
            assert(s.skip(1)[hspace_len(s) - 1] == s[hspace_len(s)]);
        }
    }
}

/// Conversely, a horizontal-whitespace prefix of length `n` ended by
/// something else is the whitespace run.
pub proof fn lemma_hspace_len_is(s: Seq<char>, n: int)
    requires
        0 <= n <= s.len(),
        forall|k: int| 0 <= k < n ==> is_hspace(s[k]),
        n == s.len() || !is_hspace(s[n]),
    ensures
        hspace_len(s) == n,
    decreases s.len(),
{
    if s.len() > 0 && is_hspace(s[0]) {
        assert(n > 0);
        assert forall|k: int| 0 <= k < n - 1 implies is_hspace(s.skip(1)[k]) by {
            assert(s.skip(1)[k] == s[k + 1]);
        }
        if n - 1 < s.skip(1).len() {
            assert(s.skip(1)[n - 1] == s[n]);
        }
        lemma_hspace_len_is(s.skip(1), n - 1);
    } else {
        assert(n == 0);
    }
}

/// A mantissa is never negative and never longer than the sequence.
pub proof fn lemma_mantissa_len_bounds(s: Seq<char>)
    ensures
        0 <= mantissa_len(s) <= s.len(),
{
    lemma_digits_len_bounds(s);
    let d = digits_len(s);
    if d > 0 {
        if d < s.len() && s[d] == '.' {
            lemma_digits_len_bounds(s.skip(d + 1));
        }
    } else {
        if s.len() >= 2 && s[0] == '.' && is_digit(s[1]) {
            lemma_digits_len_bounds(s.skip(1));
        }
    }
}

/// An exponent part is never negative and never longer than the sequence.
pub proof fn lemma_exp_len_bounds(s: Seq<char>)
    ensures
        0 <= exp_len(s) <= s.len(),
{
    if s.len() > 0 && (s[0] == 'e' || s[0] == 'E') {
        lemma_digits_len_bounds(s.skip(1 + sign_len(s.skip(1))));
    }
}

/// A floating-point literal is never negative and never longer than the
/// sequence.
pub proof fn lemma_float_len_bounds(s: Seq<char>)
    ensures
        0 <= float_len(s) <= s.len(),
{
    let sl = sign_len(s);
    lemma_mantissa_len_bounds(s.skip(sl));
    let m = mantissa_len(s.skip(sl));
    if m != 0 {
        lemma_exp_len_bounds(s.skip(sl + m));
    }
}

/// Dropping a leading run of whitespace is exactly what `trim_start` does.
pub proof fn lemma_trim_start_is(u: Seq<char>, a: int)
    requires
        0 <= a <= u.len(),
        forall|k: int| 0 <= k < a ==> is_trim_space(u[k]),
        a == u.len() || !is_trim_space(u[a]),
    ensures
        trim_start(u) == u.skip(a),
    decreases u.len(),
{
    if u.len() > 0 && is_trim_space(u[0]) {
        assert(a > 0);
        assert forall|k: int| 0 <= k < a - 1 implies is_trim_space(u.skip(1)[k]) by {
            assert(u.skip(1)[k] == u[k + 1]);
        }
        if a - 1 < u.skip(1).len() {
            assert(u.skip(1)[a - 1] == u[a]);
        }
        lemma_trim_start_is(u.skip(1), a - 1);
        assert(u.skip(1).skip(a - 1) =~= u.skip(a));
    } else {
        assert(a == 0);
        assert(u.skip(0) =~= u);
    }
}

/// Dropping a trailing run of whitespace is exactly what `trim_end` does.
pub proof fn lemma_trim_end_is(u: Seq<char>, b: int)
    requires
        0 <= b <= u.len(),
        forall|k: int| b <= k < u.len() ==> is_trim_space(u[k]),
        b == 0 || !is_trim_space(u[b - 1]),
    ensures
        trim_end(u) == u.take(b),
    decreases u.len(),
{
    if u.len() > 0 && is_trim_space(u.last()) {
        assert(b < u.len());
        assert forall|k: int| b <= k < u.drop_last().len() implies is_trim_space(
            u.drop_last()[k],
        ) by {
            assert(u.drop_last()[k] == u[k]);
        }
        lemma_trim_end_is(u.drop_last(), b);
        assert(u.drop_last().take(b) =~= u.take(b));
    } else {
        if u.len() > 0 && b < u.len() {
            assert(is_trim_space(u[u.len() - 1]));
        }
        assert(b == u.len());
        assert(u.take(b) =~= u);
    }
}

/// Trimming keeps exactly the span between the leading and the trailing
/// whitespace runs.
pub proof fn lemma_trim_is(u: Seq<char>, a: int, b: int)
    requires
        0 <= a <= b <= u.len(),
        forall|k: int| 0 <= k < a ==> is_trim_space(u[k]),
        forall|k: int| b <= k < u.len() ==> is_trim_space(u[k]),
        a == b || (!is_trim_space(u[a]) && !is_trim_space(u[b - 1])),
    ensures
        spec_trim(u) == u.subrange(a, b),
{
    if a == b {
        lemma_trim_start_is(u, u.len() as int);
        assert(trim_start(u) =~= Seq::<char>::empty());
        assert(u.subrange(a, b) =~= Seq::<char>::empty());
    } else {
        lemma_trim_start_is(u, a);
        assert forall|k: int| b - a <= k < u.skip(a).len() implies is_trim_space(
            u.skip(a)[k],
        ) by {
            assert(u.skip(a)[k] == u[k + a]);
        }
        assert(u.skip(a)[b - a - 1] == u[b - 1]);
        lemma_trim_end_is(u.skip(a), b - a);
        assert(u.skip(a).take(b - a) =~= u.subrange(a, b));
    }
}

} // verus!
