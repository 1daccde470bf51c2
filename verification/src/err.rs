//! The error type shared by the whole library.

use vstd::prelude::*;

verus! {

/// Why an input was refused: it is damaged, truncated, or of a kind that is not handled.
#[derive(Debug, Clone, Copy, PartialEq, Eq)]
pub enum Error {
    /// The input ended too early.
    UnexpectedEof,
    /// The input breaks its format; the text names the place.
    Corrupt(&'static str),
    /// A format that is not handled; the text names it.
    Unsupported(&'static str),
    /// A checksum (adler32 or SHA-1) does not match; the text names it.
    Checksum(&'static str),
    /// The base object of a delta is absent.
    MissingBase,
}

pub type Result<T> = core::result::Result<T, Error>;

impl Error {
    /// The text shown to a user.
    pub open spec fn text(self) -> Seq<char> {
        match self {
            Error::UnexpectedEof => "unexpected end of input"@,
            Error::Corrupt(what) => "corrupt data: "@ + what@,
            Error::Unsupported(what) => "unsupported: "@ + what@,
            Error::Checksum(what) => "checksum mismatch: "@ + what@,
            Error::MissingBase => "delta base object not found"@,
        }
    }

    /// The error as a line of text.
    pub fn message(&self) -> (r: String)
        ensures
            r@ == self.text(),
    {
        let (head, tail): (&'static str, &'static str) = match self {
            Error::UnexpectedEof => ("unexpected end of input", ""),
            Error::Corrupt(what) => ("corrupt data: ", *what),
            Error::Unsupported(what) => ("unsupported: ", *what),
            Error::Checksum(what) => ("checksum mismatch: ", *what),
            Error::MissingBase => ("delta base object not found", ""),
        };
        let mut out = head.to_owned();
        proof {
            reveal_strlit("");
            assert(""@ =~= Seq::<char>::empty());
        }
        out.append(tail);
        assert(out@ =~= self.text());
        out
    }
}

/// The result `r` is exactly what the specification `s` asks for: the same success value, seen
/// through its view, or the same error.
pub open spec fn agrees<T: View>(r: Result<T>, s: Result<T::V>) -> bool {
    match (r, s) {
        (Ok(v), Ok(w)) => v@ == w,
        (Err(e), Err(f)) => e == f,
        _ => false,
    }
}

} // verus!
