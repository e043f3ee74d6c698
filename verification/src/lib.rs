//! Platform-independent core of a native spell-checking front end: locale
//! normalisation, word tokenisation with UTF-8 byte ranges, dictionary
//! search paths, UTF-16 offset conversion and the selection of results.
use vstd::prelude::*;

pub mod chars;
pub mod runs;
pub mod words;
pub mod locale;
pub mod dictionary;
pub mod suggest;
pub mod utf16;

verus! {

/// Recoverable spell-checker setup failure.
///
/// A single variant on purpose: the backends cannot report the same failure
/// details, so every setup failure becomes `Error::Unavailable`.
#[derive(Debug, PartialEq, Eq, Structural, Clone, Copy)]
pub enum Error {
    /// The spell checker could not be created.
    Unavailable,
}

impl Error {
    /// The human-readable message of this error.
    pub fn to_string(&self) -> (msg: String)
        ensures
            msg@ == "spell checker unavailable"@,
    {
        match self {
            Error::Unavailable => String::from_str("spell checker unavailable"),
        }
    }
}

/// A spelling error: the misspelled word and its UTF-8 byte range in the
/// checked text.
pub struct SpellingError {
    text: String,
    start: usize,
    end: usize,
}

impl SpellingError {
    /// The misspelled word.
    pub closed spec fn word(&self) -> Seq<char> {
        self.text@
    }

    /// Inclusive start of the word, as a UTF-8 byte offset into the text.
    pub closed spec fn first_byte(&self) -> usize {
        self.start
    }

    /// Exclusive end of the word, as a UTF-8 byte offset into the text.
    pub closed spec fn end_byte(&self) -> usize {
        self.end
    }

    pub(crate) fn new(text: String, start: usize, end: usize) -> (e: SpellingError)
        ensures
            e.word() == text@,
            e.first_byte() == start,
            e.end_byte() == end,
    {
        SpellingError { text, start, end }
    }

    /// Returns the text of the misspelled word.
    pub fn text(&self) -> (t: &str)
        ensures
            t@ == self.word(),
    {
        self.text.as_str()
    }

    /// Inclusive start index of the misspelling, as a UTF-8 byte offset into the
    /// checked text. `&text[start()..end()]` is the misspelled word.
    pub fn start(&self) -> (n: usize)
        ensures
            n == self.first_byte(),
    {
        self.start
    }

    /// Exclusive end index of the misspelling, as a UTF-8 byte offset into the
    /// checked text. `&text[start()..end()]` is the misspelled word.
    pub fn end(&self) -> (n: usize)
        ensures
            n == self.end_byte(),
    {
        self.end
    }

    /// The UTF-8 byte range of the misspelling in the original text:
    /// `&text[range()]` is the misspelled word.
    pub fn range(&self) -> (r: core::ops::Range<usize>)
        ensures
            r.start == self.first_byte(),
            r.end == self.end_byte(),
    {
        self.start..self.end
    }
}

} // verus!
