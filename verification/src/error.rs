//! Why a file cannot be encoded.
use vstd::prelude::*;

use crate::binary::{decimal_digits, to_decimal};
use crate::text::{chars_of, concat_chars, string_of};

verus! {

/// The kinds of encoding failure.
#[derive(Clone, Copy, Debug, PartialEq, Eq, Structural)]
pub enum ErrorKind {
    /// A `}` (Retrospection) with no open `{` before it.
    UnbalancedRetrospection,
    /// A `{` (Introspection) that is never closed.
    UnbalancedIntrospection,
    /// A line `<[` outside an embedded list.
    UnbalancedListOpener,
    /// A line `]>` outside an embedded list.
    UnbalancedListCloser,
    /// A line that is no pattern, brace or embedded iota.
    InvalidLine,
    /// A token that the encoder cannot write.
    InvalidToken,
    /// An embedded iota that is no list, vector or number.
    InvalidIota,
    /// An empty element in a list iota.
    TooManyCommas,
    /// An element of a list iota that the encoder cannot write.
    InvalidListElement,
    /// A token that starts like a Bookkeeper's Gambit but is none.
    InvalidBookkeeper,
    /// A Bookkeeper's Gambit of 16 strokes or more.
    BookkeeperTooLong,
    /// A token that starts like a Numerical Reflection but is none.
    InvalidNumericalReflection,
    /// A number whose binary form was not supplied.
    MissingNumberCode,
    /// A name that the encoder needs as a pattern is not in the table; the
    /// encoder cannot go on.
    NotAPattern,
}

/// An encoding failure: its kind, and the text it is about (empty where the
/// kind says all).
#[derive(Clone, Debug, PartialEq, Eq)]
pub struct EncodingError {
    pub kind: ErrorKind,
    pub detail: String,
}

/// An encoding failure as the contracts see it.
pub type Fault = (ErrorKind, Seq<char>);

/// The outcome is the encoder stopping for want of a pattern.
pub open spec fn stops<T>(r: Result<T, Fault>) -> bool {
    r matches Err((ErrorKind::NotAPattern, _))
}

impl View for EncodingError {
    type V = Fault;

    open spec fn view(&self) -> Fault {
        (self.kind, self.detail@)
    }
}

/// The message that reports a failure.
pub open spec fn message_of(e: Fault) -> Seq<char> {
    let d = e.1;
    match e.0 {
        ErrorKind::UnbalancedRetrospection => "Unbalanced intro-retro - too many Retrospections"@,
        ErrorKind::UnbalancedIntrospection => "Unbalanced intro-retro - too many Introspections"@,
        ErrorKind::UnbalancedListOpener =>
            "Unbalanced embedded list iotas - too many embedded list iota openers (]>)."@,
        ErrorKind::UnbalancedListCloser =>
            "Unbalanced embedded list iotas - too many embedded list iota closers (]>)."@,
        ErrorKind::InvalidLine => "Invalid line: \""@ + d + "\""@,
        ErrorKind::InvalidToken => "Invalid: "@ + d,
        ErrorKind::InvalidIota => "\""@ + d + "\" is not a valid embedded iota."@,
        ErrorKind::TooManyCommas => "One or more list iotas have too many commas."@,
        ErrorKind::InvalidListElement => "Invalid list iota element: \""@ + d + "\""@,
        ErrorKind::InvalidBookkeeper => "Invalid Bookkeeper's Gambit: \""@ + d + "\""@,
        ErrorKind::BookkeeperTooLong =>
            "Exceeded maximum Bookkeeper's Gambit length (maximum = 16, found size = "@
                + decimal_digits(d.len()) + ")."@,
        ErrorKind::InvalidNumericalReflection => "Invalid Numerical Reflection: \""@ + d + "\""@,
        ErrorKind::MissingNumberCode => "No binary form was given for the number \""@ + d + "\""@,
        ErrorKind::NotAPattern => "\""@ + d + "\" is not a pattern."@,
    }
}

impl EncodingError {
    /// A failure of `kind` about `detail`.
    pub fn new(kind: ErrorKind, detail: Vec<char>) -> (e: EncodingError)
        ensures
            e@ == (kind, detail@),
    {
        EncodingError { kind, detail: string_of(&detail) }
    }

    /// The message that reports this failure.
    pub fn message(&self) -> (m: String)
        ensures
            m@ == message_of(self@),
    {
        let d = chars_of(self.detail.as_str());
        let v = match self.kind {
            ErrorKind::UnbalancedRetrospection => chars_of(
                "Unbalanced intro-retro - too many Retrospections",
            ),
            ErrorKind::UnbalancedIntrospection => chars_of(
                "Unbalanced intro-retro - too many Introspections",
            ),
            ErrorKind::UnbalancedListOpener => chars_of(
                "Unbalanced embedded list iotas - too many embedded list iota openers (]>).",
            ),
            ErrorKind::UnbalancedListCloser => chars_of(
                "Unbalanced embedded list iotas - too many embedded list iota closers (]>).",
            ),
            ErrorKind::InvalidLine => quoted("Invalid line: \"", &d, "\""),
            ErrorKind::InvalidToken => quoted("Invalid: ", &d, ""),
            ErrorKind::InvalidIota => quoted("\"", &d, "\" is not a valid embedded iota."),
            ErrorKind::TooManyCommas => chars_of("One or more list iotas have too many commas."),
            ErrorKind::InvalidListElement => quoted("Invalid list iota element: \"", &d, "\""),
            ErrorKind::InvalidBookkeeper => quoted("Invalid Bookkeeper's Gambit: \"", &d, "\""),
            ErrorKind::BookkeeperTooLong => {
                let n = to_decimal(d.len());
                quoted(
                    "Exceeded maximum Bookkeeper's Gambit length (maximum = 16, found size = ",
                    &n,
                    ").",
                )
            },
            ErrorKind::InvalidNumericalReflection => quoted(
                "Invalid Numerical Reflection: \"",
                &d,
                "\"",
            ),
            ErrorKind::MissingNumberCode => quoted(
                "No binary form was given for the number \"",
                &d,
                "\"",
            ),
            ErrorKind::NotAPattern => quoted("\"", &d, "\" is not a pattern."),
        };
        proof {
            reveal_strlit("");
            assert("Invalid: "@ + d@ + ""@ =~= "Invalid: "@ + d@);
        }
        string_of(&v)
    }
}

/// `before`, then `middle`, then `after`.
fn quoted(before: &str, middle: &Vec<char>, after: &str) -> (r: Vec<char>)
    ensures
        r@ == before@ + middle@ + after@,
{
    let b = chars_of(before);
    let a = chars_of(after);
    let bm = concat_chars(&b, middle);
    concat_chars(&bm, &a)
}

} // verus!
