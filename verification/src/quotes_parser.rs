//! Quotes and the recognition of quote files.
//!
//! A quote file is written in one of two layouts. In the first, records are
//! separated by a blank line and an author stands between two colons at the
//! end of a record (`mail_quotes_parser`). In the second, records are
//! separated by a line that holds only `%` and an author follows the last
//! `- ` (`thunderbird_parser`). `parse` tries the first layout, then the
//! second, and accepts a file only if it holds at least two quotes.

pub mod mail_quotes_parser;
pub mod thunderbird_parser;

use crate::text::{chars_of, decimal, string_of, to_decimal, trim, trimmed};
use vstd::prelude::*;
use vstd::string::StringExecFns;

verus! {

/// A quotation: its text and, if known, who said it.
#[derive(Debug, PartialEq, Eq, Hash)]
pub struct Quote {
    pub author: Option<String>,
    pub text: String,
}

/// What a `Quote` stands for: the characters of its author and text.
pub struct QuoteView {
    pub author: Option<Seq<char>>,
    pub text: Seq<char>,
}

impl View for Quote {
    type V = QuoteView;

    open spec fn view(&self) -> QuoteView {
        QuoteView {
            author: match self.author {
                Some(a) => Some(a@),
                None => None,
            },
            text: self.text@,
        }
    }
}

/// The quote with the given author and text, both trimmed.
pub open spec fn attributed(author: Seq<char>, text: Seq<char>) -> QuoteView {
    QuoteView { author: Some(trimmed(author)), text: trimmed(text) }
}

/// The quote without an author and with the given text, trimmed.
pub open spec fn anonymous(text: Seq<char>) -> QuoteView {
    QuoteView { author: None, text: trimmed(text) }
}

impl QuoteView {
    /// Whether neither the text nor the author starts or ends with white
    /// space. Every quote that a constructor or a parser makes is trimmed.
    pub open spec fn is_trimmed(self) -> bool {
        &&& crate::text::is_trimmed(self.text)
        &&& match self.author {
            Some(a) => crate::text::is_trimmed(a),
            None => true,
        }
    }
}

impl Quote {
    /// A quote with an author. White space around either part is dropped.
    pub fn new(author: &str, text: &str) -> (q: Self)
        ensures
            q@ == attributed(author@, text@),
    {
        let a = chars_of(author);
        let t = chars_of(text);
        Quote::from_chars(Some(a.as_slice()), t.as_slice())
    }

    /// A quote without an author. White space around the text is dropped.
    pub fn new_anonymous(text: &str) -> (q: Self)
        ensures
            q@ == anonymous(text@),
    {
        let t = chars_of(text);
        Quote::from_chars(None, t.as_slice())
    }

    /// The quote made of the given characters, trimmed.
    pub fn from_chars(author: Option<&[char]>, text: &[char]) -> (q: Self)
        ensures
            q@ == match author {
                Some(a) => attributed(a@, text@),
                None => anonymous(text@),
            },
    {
        let author = match author {
            Some(a) => Some(string_of(trim(a))),
            None => None,
        };
        Quote { author, text: string_of(trim(text)) }
    }

    /// A copy of this quote.
    pub fn duplicate(&self) -> (q: Self)
        ensures
            q@ == self@,
    {
        let author = match &self.author {
            Some(a) => Some(a.clone()),
            None => None,
        };
        Quote { author, text: self.text.clone() }
    }

    /// Whether two quotes have the same author, or both none, and the same
    /// text.
    pub fn same_as(&self, other: &Quote) -> (b: bool)
        ensures
            b == (self@ == other@),
    {
        let same_author = match &self.author {
            Some(a) => match &other.author {
                Some(b) => *a == *b,
                None => false,
            },
            None => other.author.is_none(),
        };
        same_author && self.text == other.text
    }
}

/// A constructed quote is trimmed.
pub proof fn lemma_constructed_is_trimmed(author: Seq<char>, text: Seq<char>)
    ensures
        attributed(author, text).is_trimmed(),
        anonymous(text).is_trimmed(),
{
    crate::text::lemma_trimmed_is_trimmed(author);
    crate::text::lemma_trimmed_is_trimmed(text);
}

/// Whether `c` ends a line: line feed, carriage return, vertical tab, form
/// feed, next line, line separator or paragraph separator.
pub open spec fn is_line_break(c: char) -> bool {
    ||| c == '\n'
    ||| c == '\r'
    ||| c == '\u{0B}'
    ||| c == '\u{0C}'
    ||| c == '\u{85}'
    ||| c == '\u{2028}'
    ||| c == '\u{2029}'
}

/// The number of characters of the line break that starts at `i` in `s`:
/// 2 for a carriage return directly before a line feed, 1 for any other
/// line-break character, 0 if no line break starts there.
pub open spec fn line_break_len(s: Seq<char>, i: int) -> int {
    if 0 <= i && i + 1 < s.len() && s[i] == '\r' && s[i + 1] == '\n' {
        2
    } else if 0 <= i < s.len() && is_line_break(s[i]) {
        1
    } else {
        0
    }
}

/// Tests `c` for being a line-break character.
pub fn ends_line(c: char) -> (b: bool)
    ensures
        b == is_line_break(c),
{
    c == '\n' || c == '\r' || c == '\u{0B}' || c == '\u{0C}' || c == '\u{85}' || c == '\u{2028}'
        || c == '\u{2029}'
}

/// Measures the line break that starts at `i`.
pub fn line_break_at(s: &[char], i: usize) -> (n: usize)
    ensures
        n == line_break_len(s@, i as int),
{
    if i < s.len() {
        if s[i] == '\r' && i + 1 < s.len() && s[i + 1] == '\n' {
            2
        } else if ends_line(s[i]) {
            1
        } else {
            0
        }
    } else {
        0
    }
}

/// Why a layout does not fit an input: the records could be read up to
/// `offset`, counted in characters, and what follows there is neither a
/// separator nor the end of the input.
#[derive(Debug, PartialEq, Eq, Clone, Copy)]
pub struct SyntaxError {
    pub offset: usize,
}

/// The records read from some position on, and the position where reading
/// stopped.
pub struct Scan {
    pub records: Seq<Seq<char>>,
    pub stop: int,
}

/// The views of a vector of quotes, in order.
pub open spec fn views(quotes: Seq<Quote>) -> Seq<QuoteView> {
    quotes.map_values(|q: Quote| q@)
}

/// Why neither layout fits an input: where each of them stopped.
#[derive(Debug, PartialEq, Eq, Clone, Copy)]
pub struct Unrecognized {
    pub mail_quotes: SyntaxError,
    pub thunderbird: SyntaxError,
}

/// What the two layouts make of `s`, the one with delimited authors
/// first: its quotes if it fits, else those of the layout with authors
/// after a dash if that fits, else where each of them stopped.
pub open spec fn guessed(s: Seq<char>) -> Result<Seq<QuoteView>, (int, int)> {
    match mail_quotes_parser::recognized(s) {
        Ok(quotes) => Ok(quotes),
        Err(a) => match thunderbird_parser::recognized(s) {
            Ok(quotes) => Ok(quotes),
            Err(b) => Err((a, b)),
        },
    }
}

/// The least number of quotes that makes a file a quote file.
pub const MIN_QUOTES: usize = 2;

/// What a file is found to be.
#[derive(Debug, PartialEq, Eq)]
pub enum Verdict {
    /// A quote file, with its quotes in order: at least `MIN_QUOTES`.
    Quotes(Vec<Quote>),
    /// A layout fits, but the file holds fewer than `MIN_QUOTES` quotes,
    /// namely this many: probably not a quote file.
    TooFew(usize),
    /// Neither layout fits.
    Unrecognized(Unrecognized),
}

/// What a `Verdict` stands for.
pub enum VerdictView {
    Quotes(Seq<QuoteView>),
    TooFew(nat),
    Unrecognized { mail_quotes: int, thunderbird: int },
}

impl View for Verdict {
    type V = VerdictView;

    open spec fn view(&self) -> VerdictView {
        match self {
            Verdict::Quotes(quotes) => VerdictView::Quotes(views(quotes@)),
            Verdict::TooFew(n) => VerdictView::TooFew(*n as nat),
            Verdict::Unrecognized(e) => VerdictView::Unrecognized {
                mail_quotes: e.mail_quotes.offset as int,
                thunderbird: e.thunderbird.offset as int,
            },
        }
    }
}

/// What the file with the contents `s` is found to be.
pub open spec fn examined(s: Seq<char>) -> VerdictView {
    match guessed(s) {
        Ok(quotes) => if quotes.len() >= MIN_QUOTES {
            VerdictView::Quotes(quotes)
        } else {
            VerdictView::TooFew(quotes.len())
        },
        Err((a, b)) => VerdictView::Unrecognized { mail_quotes: a, thunderbird: b },
    }
}

/// The quotes of the file with the contents `s`, if it is a quote file.
pub open spec fn parsed(s: Seq<char>) -> Option<Seq<QuoteView>> {
    match examined(s) {
        VerdictView::Quotes(quotes) => Some(quotes),
        _ => None,
    }
}

/// What is said of a file that is not a quote file.
pub open spec fn diagnostic_of(v: VerdictView) -> Option<Seq<char>> {
    match v {
        VerdictView::Quotes(_) => None,
        VerdictView::TooFew(_) => Some(
            "File contained less than 2 quotes. Maybe it isn't a quotes file?"@,
        ),
        VerdictView::Unrecognized { mail_quotes, thunderbird } => Some(
            "Unrecognized format: as blank-line separated quotes, unexpected input at character "@
                + decimal(mail_quotes as nat)
                + "; as %-separated quotes, unexpected input at character "@ + decimal(
                thunderbird as nat,
            ),
        ),
    }
}

impl Verdict {
    /// What to tell the user about a file that is not a quote file;
    /// nothing for one that is.
    pub fn diagnostic(&self) -> (r: Option<String>)
        ensures
            match r {
                Some(text) => diagnostic_of(self@) == Some(text@),
                None => diagnostic_of(self@) is None,
            },
    {
        match self {
            Verdict::Quotes(_) => None,
            Verdict::TooFew(_) => Some(
                String::from_str("File contained less than 2 quotes. Maybe it isn't a quotes file?"),
            ),
            Verdict::Unrecognized(e) => {
                let mut text = String::from_str(
                    "Unrecognized format: as blank-line separated quotes, unexpected input at character ",
                );
                text.append(to_decimal(e.mail_quotes.offset).as_str());
                text.append("; as %-separated quotes, unexpected input at character ");
                text.append(to_decimal(e.thunderbird.offset).as_str());
                Some(text)
            },
        }
    }
}

/// The recogniser that tries both layouts.
pub struct GuessingParser {}

/// The recogniser that tries both layouts, the one with delimited authors
/// first.
pub fn guessing_parser() -> GuessingParser {
    GuessingParser {  }
}

impl GuessingParser {
    /// Reads `s` in the first layout that fits. An input that fits both is
    /// read in the layout with delimited authors.
    pub fn parse(&self, s: &str) -> (r: Result<Vec<Quote>, Unrecognized>)
        ensures
            match r {
                Ok(quotes) => guessed(s@) == Ok::<Seq<QuoteView>, (int, int)>(views(quotes@)),
                Err(e) => guessed(s@) == Err::<Seq<QuoteView>, (int, int)>(
                    (e.mail_quotes.offset as int, e.thunderbird.offset as int),
                ),
            },
            mail_quotes_parser::recognized(s@) matches Ok(quotes) ==> r is Ok && views(r->Ok_0@)
                == quotes,
    {
        let chars = chars_of(s);
        match mail_quotes_parser::parse_chars(chars.as_slice()) {
            Ok(quotes) => Ok(quotes),
            Err(a) => match thunderbird_parser::parse_chars(chars.as_slice()) {
                Ok(quotes) => Ok(quotes),
                Err(b) => Err(Unrecognized { mail_quotes: a, thunderbird: b }),
            },
        }
    }
}

/// Finds out what the file with the contents `s` is: a quote file with
/// its quotes, a file with too few quotes, or one in no known layout.
pub fn examine(s: &str) -> (v: Verdict)
    ensures
        v@ == examined(s@),
{
    match guessing_parser().parse(s) {
        Ok(quotes) => if quotes.len() >= MIN_QUOTES {
            Verdict::Quotes(quotes)
        } else {
            Verdict::TooFew(quotes.len())
        },
        Err(e) => Verdict::Unrecognized(e),
    }
}

/// The quotes of the file with the contents `s`, in order, if it is a
/// quote file: if one of the two layouts fits and it holds two quotes or
/// more.
pub fn parse(s: &str) -> (r: Option<Vec<Quote>>)
    ensures
        match r {
            Some(quotes) => parsed(s@) == Some(views(quotes@)),
            None => parsed(s@) is None,
        },
{
    match examine(s) {
        Verdict::Quotes(quotes) => Some(quotes),
        _ => None,
    }
}

/// An input that fits both layouts is read in the layout with delimited
/// authors: whenever that layout fits, its quotes are the result.
pub proof fn lemma_delimited_authors_first(s: Seq<char>)
    requires
        mail_quotes_parser::recognized(s) is Ok,
    ensures
        guessed(s) == Ok::<Seq<QuoteView>, (int, int)>(mail_quotes_parser::recognized(s)->Ok_0),
        parsed(s) == if mail_quotes_parser::recognized(s)->Ok_0.len() >= 2 {
            Some(mail_quotes_parser::recognized(s)->Ok_0)
        } else {
            None
        },
{
}

/// A file of two or more well-formed records in the layout with delimited
/// authors is a quote file, and its quotes are those of its records, in
/// order.
pub proof fn lemma_mail_quotes_file_is_parsed(entries: Seq<mail_quotes_parser::Entry>)
    requires
        mail_quotes_parser::well_formed_file(entries),
        entries.len() >= 2,
    ensures
        parsed(mail_quotes_parser::written(entries)) == Some(
            entries.map_values(
                |e: mail_quotes_parser::Entry| mail_quotes_parser::quote_of(e.record.body()),
            ),
        ),
{
    mail_quotes_parser::lemma_written_is_recognized(entries);
}

/// A file of two or more well-formed records in the layout with authors
/// after a dash is a quote file, and its quotes are those of its records,
/// in order, unless the layout with delimited authors fits it too.
pub proof fn lemma_thunderbird_file_is_parsed(entries: Seq<thunderbird_parser::Entry>)
    requires
        thunderbird_parser::well_formed_file(entries),
        entries.len() >= 2,
        mail_quotes_parser::recognized(thunderbird_parser::written(entries)) is Err,
    ensures
        parsed(thunderbird_parser::written(entries)) == Some(
            entries.map_values(
                |e: thunderbird_parser::Entry| thunderbird_parser::quote_of(e.record),
            ),
        ),
{
    thunderbird_parser::lemma_written_is_recognized(entries);
}

} // verus!
