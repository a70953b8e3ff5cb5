//! A verified parser for the Scala (`.scl`) musical tuning file format.
//!
//! A scale file holds a free-form description line, a note count, and that
//! many interval lines, each either a frequency ratio `numerator/denominator`
//! or a decimal cents offset.  Comment lines, which begin with `!`, may stand
//! before the description, before the count, and before every interval.
//! The grammar is stated by the spec functions in [`grammar`], and
//! [`Scale::from_str`] is proved to return exactly what that grammar assigns
//! to its input.

use vstd::prelude::*;

pub mod grammar;
pub mod laws;
mod scan;

verus! {

use crate::grammar::spec_header;
use crate::grammar::spec_parse;
use crate::grammar::spec_notes;
use crate::grammar::SpecNote;
use crate::grammar::SpecScale;

/// The ghost view of a sequence of parsed notes.
pub open spec fn notes_view(v: Seq<Note>) -> Seq<SpecNote> {
    v.map_values(|n: Note| n@)
}

/// One scale degree: a frequency ratio of two unsigned integers, or a cents
/// offset kept as the verbatim decimal text read from the file.
#[derive(Debug, Clone, PartialEq)]
pub enum Note {
    Ratio { numerator: u64, denominator: u64 },
    Cents(String),
}

impl View for Note {
    type V = SpecNote;

    open spec fn view(&self) -> SpecNote {
        match self {
            Note::Ratio { numerator, denominator } => (SpecNote::Ratio {
                numerator: *numerator,
                denominator: *denominator,
            }),
            Note::Cents(text) => (SpecNote::Cents { text: text@ }),
        }
    }
}

/// A parsed scale: a description plus the ordered intervals.
#[derive(Debug, Clone, PartialEq)]
pub struct Scale {
    pub description: String,
    pub notes: Vec<Note>,
}

impl View for Scale {
    type V = SpecScale;

    open spec fn view(&self) -> SpecScale {
        (SpecScale {
            description: self.description@,
            notes: notes_view(self.notes@),
        })
    }
}

/// An opaque parse failure carrying a human-readable message.
#[derive(Debug, Clone)]
pub struct Error {
    message: String,
}

impl Error {
    /// The message as a sequence of characters.
    pub closed spec fn spec_message(&self) -> Seq<char> {
        self.message@
    }

    pub(crate) fn new(text: &str) -> (e: Error)
        ensures
            e.spec_message() == text@,
    {
        Error { message: text.to_owned() }
    }

    /// The human-readable description of the failure.
    pub fn message(&self) -> (r: &str)
        ensures
            r@ == self.spec_message(),
    {
        self.message.as_str()
    }
}

/// The document parser: leading comments, the description line, comments,
/// the note-count line, then exactly that many intervals, each preceded by
/// optional comments.  Whatever follows the last interval is left unread.
fn parse_scala(s: &str) -> (r: Result<Scale, Error>)
    ensures
        match r {
            Ok(scale) => spec_parse(s@) == Some(scale@),
            Err(_) => spec_parse(s@) is None,
        },
{
    proof {
        assert(s@.skip(0) =~= s@);
    }
    let p0 = match scan::many_comments(s, 0) {
        Ok(p) => p,
        Err(e) => {
            return Err(e);
        },
    };
    let (p1, description) = match scan::take_line(s, p0) {
        Ok(x) => x,
        Err(e) => {
            return Err(e);
        },
    };
    let p2 = match scan::many_comments(s, p1) {
        Ok(p) => p,
        Err(e) => {
            return Err(e);
        },
    };
    let (p3, count) = match scan::note_count(s, p2) {
        Ok(x) => x,
        Err(e) => {
            return Err(e);
        },
    };
    let ghost t4 = s@.skip(p3 as int);
    let mut notes: Vec<Note> = Vec::new();
    let mut cur = p3;
    let mut k: u64 = 0;
    proof {
        assert(notes_view(notes@) + Seq::<SpecNote>::empty() =~= notes_view(notes@));
    }
    while k < count
        invariant
            k <= count,
            p3 <= cur <= s@.len(),
            notes@.len() == k as nat,
            t4 == s@.skip(p3 as int),
            spec_header(s@) == Some((t4, description@, count)),
            (match spec_notes(s@.skip(cur as int), (count - k) as nat) {
                Some(tail) => spec_notes(t4, count as nat) == Some(
                    (tail.0, notes_view(notes@) + tail.1),
                ),
                None => spec_notes(t4, count as nat) is None,
            }),
        decreases count - k,
    {
        let c1 = match scan::many_comments(s, cur) {
            Ok(p) => p,
            Err(e) => {
                return Err(e);
            },
        };
        let (c2, nt) = match scan::note(s, c1) {
            Ok(x) => x,
            Err(e) => {
                return Err(e);
            },
        };
        let ghost prev = notes@;
        proof {
            match spec_notes(s@.skip(c2 as int), (count - k - 1) as nat) {
                Some(tail) => {
                    assert(spec_notes(s@.skip(cur as int), (count - k) as nat) == Some(
                        (tail.0, seq![nt@] + tail.1),
                    ));
                    assert(notes_view(prev) + (seq![nt@] + tail.1) =~= (notes_view(prev)
                        + seq![nt@]) + tail.1);
                },
                None => {},
            }
        }
        notes.push(nt);
        proof {
            assert(notes_view(notes@) =~= notes_view(prev) + seq![nt@]);
        }
        cur = c2;
        k = k + 1;
    }
    proof {
        assert(spec_notes(s@.skip(cur as int), 0) == Some(
            (s@.skip(cur as int), Seq::<SpecNote>::empty()),
        ));
        assert(notes_view(notes@) + Seq::<SpecNote>::empty() =~= notes_view(notes@));
    }
    Ok(Scale { description, notes })
}

impl Scale {
    /// Parse a scale from the text of an `.scl` file.
    ///
    /// Succeeds exactly when the grammar in [`grammar::spec_parse`] assigns a
    /// value to the input, and then returns exactly that value.  Scale
    /// archives are often stored in a legacy 8-bit encoding; decoding such a
    /// file into text is the caller's concern.
    pub fn from_str(input: &str) -> (r: Result<Scale, Error>)
        ensures
            match r {
                Ok(scale) => spec_parse(input@) == Some(scale@),
                Err(_) => spec_parse(input@) is None,
            },
    {
        parse_scala(input)
    }
}

} // verus!
