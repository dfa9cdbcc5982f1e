//! The layout with delimited authors.
//!
//! Records are separated by a blank line, that is by two line breaks. A
//! record is either bracketed, `[` up to the next `]` with anything in
//! between, line breaks included, or plain, a run of characters without a
//! line break. One separator may follow the last record. A record that
//! ends in `TEXT:AUTHOR:` names its author between its last two colons.

use crate::quotes_parser::{
    anonymous, attributed, ends_line, is_line_break, line_break_at, line_break_len, views, Quote,
    QuoteView, Scan, SyntaxError,
};
use crate::text::{chars_of, last_index_of, rfind};
use vstd::prelude::*;
use vstd::slice::slice_subrange;

verus! {

/// The first position from `i` on that holds a line-break character, or
/// the length of `s` if there is none: where a plain record that starts
/// at `i` ends.
pub open spec fn plain_end(s: Seq<char>, i: int) -> int
    decreases s.len() - i,
{
    if 0 <= i < s.len() && !is_line_break(s[i]) {
        plain_end(s, i + 1)
    } else {
        i
    }
}

/// The first position from `i` on that holds `]`, or the length of `s` if
/// there is none.
pub open spec fn bracket_end(s: Seq<char>, i: int) -> int
    decreases s.len() - i,
{
    if 0 <= i < s.len() && s[i] != ']' {
        bracket_end(s, i + 1)
    } else {
        i
    }
}

/// A record as it stands in the input: what it holds, and the position
/// after it.
pub struct Record {
    pub body: Seq<char>,
    pub end: int,
}

/// The record that starts at `i`, if one does. A `[` with a `]` somewhere
/// after it starts a bracketed record, which holds what stands between the
/// `[` and the next `]`. Otherwise the characters up to the next line
/// break, if there is at least one, are a plain record.
pub open spec fn record_at(s: Seq<char>, i: int) -> Option<Record> {
    if 0 <= i < s.len() && s[i] == '[' && bracket_end(s, i + 1) < s.len() {
        Some(
            Record {
                body: s.subrange(i + 1, bracket_end(s, i + 1)),
                end: bracket_end(s, i + 1) + 1,
            },
        )
    } else if 0 <= i && plain_end(s, i) > i {
        Some(Record { body: s.subrange(i, plain_end(s, i)), end: plain_end(s, i) })
    } else {
        None
    }
}

/// The length of the separator that starts at `i`, two line breaks, or 0
/// if none starts there.
pub open spec fn separator_len(s: Seq<char>, i: int) -> int {
    let a = line_break_len(s, i);
    let b = line_break_len(s, i + a);
    if a > 0 && b > 0 {
        a + b
    } else {
        0
    }
}

/// The records found from `i` on, where a record is expected, and the
/// position where reading stops: after the last record, or after the one
/// separator that may follow it.
pub open spec fn scan(s: Seq<char>, i: int) -> Scan
    decreases s.len() - i,
{
    match record_at(s, i) {
        None => Scan { records: Seq::empty(), stop: i },
        Some(r) => {
            let d = separator_len(s, r.end);
            if d == 0 {
                Scan { records: seq![r.body], stop: r.end }
            } else if record_at(s, r.end + d) is None {
                Scan { records: seq![r.body], stop: r.end + d }
            } else {
                proof {
                    lemma_record_bounds(s, i);
                }
                let rest = scan(s, r.end + d);
                Scan { records: seq![r.body] + rest.records, stop: rest.stop }
            }
        },
    }
}

/// The quote that a record holds. If the record has two colons or more,
/// the author stands between the last two and the text before them; what
/// follows the last colon is dropped. Otherwise the whole record is the
/// text of an anonymous quote.
pub open spec fn quote_of(record: Seq<char>) -> QuoteView {
    let k2 = last_index_of(record, ':');
    let k1 = if k2 >= 0 {
        last_index_of(record.take(k2), ':')
    } else {
        -1
    };
    if k1 >= 0 {
        attributed(record.subrange(k1 + 1, k2), record.take(k1))
    } else {
        anonymous(record)
    }
}

/// What this layout makes of `s`: the quotes of its records, in order, if
/// the records and separators take up all of `s`, else the position where
/// reading stopped.
pub open spec fn recognized(s: Seq<char>) -> Result<Seq<QuoteView>, int> {
    let found = scan(s, 0);
    if found.stop == s.len() {
        Ok(found.records.map_values(|r: Seq<char>| quote_of(r)))
    } else {
        Err(found.stop)
    }
}

/// A plain record ends at or after its start, within the input, at a line
/// break or at the end, and holds no line break.
pub proof fn lemma_plain_end(s: Seq<char>, i: int)
    requires
        0 <= i <= s.len(),
    ensures
        i <= plain_end(s, i) <= s.len(),
        plain_end(s, i) < s.len() ==> is_line_break(s[plain_end(s, i)]),
        forall|j: int| i <= j < plain_end(s, i) ==> !is_line_break(#[trigger] s[j]),
    decreases s.len() - i,
{
    if i < s.len() && !is_line_break(s[i]) {
        lemma_plain_end(s, i + 1);
    }
}

/// The search for `]` ends at or after its start, within the input, at a
/// `]` or at the end, and passes over no `]`.
pub proof fn lemma_bracket_end(s: Seq<char>, i: int)
    requires
        0 <= i <= s.len(),
    ensures
        i <= bracket_end(s, i) <= s.len(),
        bracket_end(s, i) < s.len() ==> s[bracket_end(s, i)] == ']',
        forall|j: int| i <= j < bracket_end(s, i) ==> #[trigger] s[j] != ']',
    decreases s.len() - i,
{
    if i < s.len() && s[i] != ']' {
        lemma_bracket_end(s, i + 1);
    }
}

/// A record is not empty as written and ends within the input; a
/// separator ends within the input. No record starts at the end of the
/// input or at a line break, and one starts everywhere else.
pub proof fn lemma_record_bounds(s: Seq<char>, i: int)
    ensures
        record_at(s, i) matches Some(r) ==> 0 <= i < r.end <= s.len() && r.end + separator_len(
            s,
            r.end,
        ) <= s.len(),
        record_at(s, i) is None <==> !(0 <= i < s.len()) || is_line_break(s[i]),
{
    if 0 <= i < s.len() {
        lemma_plain_end(s, i);
        lemma_bracket_end(s, i + 1);
        if !is_line_break(s[i]) {
            lemma_plain_end(s, i + 1);
        }
    }
}

/// Reading stops within the input, and never before the position where it
/// began.
pub proof fn lemma_scan_bounds(s: Seq<char>, i: int)
    requires
        0 <= i <= s.len(),
    ensures
        i <= scan(s, i).stop <= s.len(),
    decreases s.len() - i,
{
    lemma_record_bounds(s, i);
    match record_at(s, i) {
        None => {},
        Some(r) => {
            let d = separator_len(s, r.end);
            if d != 0 && record_at(s, r.end + d) is Some {
                lemma_scan_bounds(s, r.end + d);
            }
        },
    }
}

/// A record as it is written in a file: plain, or between brackets.
pub enum Written {
    Plain(Seq<char>),
    Bracketed(Seq<char>),
}

impl Written {
    /// What the record holds.
    pub open spec fn body(self) -> Seq<char> {
        match self {
            Written::Plain(body) => body,
            Written::Bracketed(body) => body,
        }
    }

    /// The characters that stand in the file for the record.
    pub open spec fn text(self) -> Seq<char> {
        match self {
            Written::Plain(body) => body,
            Written::Bracketed(body) => seq!['['] + body + seq![']'],
        }
    }

    /// Whether the record can be written this way: a plain record is not
    /// empty, holds no line break and does not start with `[`; a
    /// bracketed record holds no `]`.
    pub open spec fn well_formed(self) -> bool {
        match self {
            Written::Plain(body) => {
                &&& body.len() > 0
                &&& body[0] != '['
                &&& forall|i: int| 0 <= i < body.len() ==> !is_line_break(#[trigger] body[i])
            },
            Written::Bracketed(body) => forall|i: int|
                0 <= i < body.len() ==> #[trigger] body[i] != ']',
        }
    }
}

/// A record of a file together with what stands between it and the next
/// record, or after it at the end of the file.
pub struct Entry {
    pub record: Written,
    pub gap: Seq<char>,
}

/// Whether `gap` is exactly one separator: two line breaks.
pub open spec fn is_blank_line(gap: Seq<char>) -> bool {
    gap.len() > 0 && separator_len(gap, 0) == gap.len()
}

/// The file that holds `entries`: each record as it is written, followed
/// by its gap.
pub open spec fn written(entries: Seq<Entry>) -> Seq<char>
    decreases entries.len(),
{
    if entries.len() == 0 {
        Seq::empty()
    } else {
        entries[0].record.text() + entries[0].gap + written(entries.drop_first())
    }
}

/// Whether `entries` make a file in this layout: every record is well
/// formed and followed by a separator, except that nothing need follow
/// the last one.
pub open spec fn well_formed_file(entries: Seq<Entry>) -> bool {
    forall|i: int|
        0 <= i < entries.len() ==> {
            &&& (#[trigger] entries[i]).record.well_formed()
            &&& is_blank_line(entries[i].gap) || (i == entries.len() - 1 && entries[i].gap.len()
                == 0)
        }
}

/// A plain record ends where the first line break after its start stands.
proof fn lemma_plain_end_at(s: Seq<char>, i: int, j: int)
    requires
        0 <= i <= j <= s.len(),
        forall|k: int| i <= k < j ==> !is_line_break(#[trigger] s[k]),
        j == s.len() || is_line_break(s[j]),
    ensures
        plain_end(s, i) == j,
    decreases j - i,
{
    if i < j {
        assert(!is_line_break(s[i]));
        lemma_plain_end_at(s, i + 1, j);
    }
}

/// The search for `]` ends where the first `]` after its start stands.
proof fn lemma_bracket_end_at(s: Seq<char>, i: int, j: int)
    requires
        0 <= i <= j < s.len(),
        forall|k: int| i <= k < j ==> #[trigger] s[k] != ']',
        s[j] == ']',
    ensures
        bracket_end(s, i) == j,
    decreases j - i,
{
    if i < j {
        assert(s[i] != ']');
        lemma_bracket_end_at(s, i + 1, j);
    }
}

/// A file of at least one record starts with a character that is no line
/// break.
proof fn lemma_written_start(entries: Seq<Entry>)
    requires
        well_formed_file(entries),
        entries.len() > 0,
    ensures
        written(entries).len() > 0,
        !is_line_break(written(entries)[0]),
{
    let e = entries[0];
    assert(e.record.well_formed());
    match e.record {
        Written::Plain(body) => {
            assert(written(entries)[0] == body[0]);
        },
        Written::Bracketed(body) => {
            assert(written(entries)[0] == '[');
        },
    }
}

/// Reading a well-formed file from its first record on finds the bodies
/// of all its records and stops at its end, whatever stands before that
/// record.
proof fn lemma_scan_written(prefix: Seq<char>, entries: Seq<Entry>)
    requires
        well_formed_file(entries),
        entries.len() > 0,
    ensures
        scan(prefix + written(entries), prefix.len() as int) == (Scan {
            records: entries.map_values(|e: Entry| e.record.body()),
            stop: (prefix + written(entries)).len() as int,
        }),
    decreases entries.len(),
{
    let e = entries[0];
    let rest = entries.drop_first();
    let s = prefix + written(entries);
    let i = prefix.len() as int;
    let text = e.record.text();
    let end = i + text.len();
    let tail = written(rest);
    let bodies = entries.map_values(|e: Entry| e.record.body());
    assert(e.record.well_formed());
    assert(well_formed_file(rest)) by {
        assert forall|k: int| 0 <= k < rest.len() implies {
            &&& (#[trigger] rest[k]).record.well_formed()
            &&& is_blank_line(rest[k].gap) || (k == rest.len() - 1 && rest[k].gap.len() == 0)
        } by {
            assert(rest[k] == entries[k + 1]);
        }
    }
    assert(s.len() == i + text.len() + e.gap.len() + tail.len());
    assert forall|k: int| 0 <= k < text.len() implies s[i + k] == text[k] by {}
    assert forall|k: int| 0 <= k < e.gap.len() implies s[end + k] == e.gap[k] by {}
    if rest.len() > 0 {
        lemma_written_start(rest);
        assert(s[end + e.gap.len()] == tail[0]);
    } else {
        assert(tail.len() == 0);
    }
    // The record that starts at `i` is the first record of the file.
    if e.gap.len() > 0 {
        assert(is_line_break(e.gap[0]));
        assert(s[end] == e.gap[0]);
    }
    match e.record {
        Written::Plain(body) => {
            assert forall|k: int| i <= k < end implies !is_line_break(#[trigger] s[k]) by {
                assert(s[k] == body[k - i]);
            }
            lemma_plain_end_at(s, i, end);
            assert(s[i] == body[0]);
            assert(s.subrange(i, end) =~= body);
        },
        Written::Bracketed(body) => {
            assert(s[i] == '[');
            assert(s[end - 1] == ']');
            assert forall|k: int| i + 1 <= k < end - 1 implies #[trigger] s[k] != ']' by {
                assert(s[k] == text[k - i]);
                assert(text[k - i] == body[k - i - 1]);
            }
            lemma_bracket_end_at(s, i + 1, end - 1);
            assert(s.subrange(i + 1, end - 1) =~= body);
        },
    }
    assert(record_at(s, i) == Some(Record { body: e.record.body(), end }));
    // What follows the record is its gap.
    let d = separator_len(s, end);
    if e.gap.len() == 0 {
        assert(end == s.len());
        assert(d == 0);
        assert(bodies =~= seq![e.record.body()]);
    } else {
        let a = line_break_len(e.gap, 0);
        assert(line_break_len(s, end) == a);
        assert(line_break_len(s, end + a) == line_break_len(e.gap, a));
        assert(d == e.gap.len());
        lemma_record_bounds(s, end + d);
        if rest.len() == 0 {
            assert(end + d == s.len());
            assert(bodies =~= seq![e.record.body()]);
        } else {
            let longer = prefix + text + e.gap;
            assert(s =~= longer + tail);
            lemma_scan_written(longer, rest);
            assert(bodies =~= seq![e.record.body()] + rest.map_values(
                |e: Entry| e.record.body(),
            ));
        }
    }
}

/// A file of well-formed records, each followed by a blank line except
/// that the last need not be, is read as exactly those records, in order:
/// one quote for each, made from what the record holds.
pub proof fn lemma_written_is_recognized(entries: Seq<Entry>)
    requires
        well_formed_file(entries),
    ensures
        recognized(written(entries)) == Ok::<Seq<QuoteView>, int>(
            entries.map_values(|e: Entry| quote_of(e.record.body())),
        ),
{
    let s = written(entries);
    let quotes = entries.map_values(|e: Entry| quote_of(e.record.body()));
    if entries.len() == 0 {
        assert(scan(s, 0).records.map_values(|r: Seq<char>| quote_of(r)) =~= quotes);
    } else {
        lemma_scan_written(Seq::empty(), entries);
        assert(Seq::<char>::empty() + s =~= s);
        assert(entries.map_values(|e: Entry| e.record.body()).map_values(
            |r: Seq<char>| quote_of(r),
        ) =~= quotes);
    }
}

/// Where the plain record that starts at `i` ends.
fn find_plain_end(s: &[char], i: usize) -> (j: usize)
    requires
        i <= s.len(),
    ensures
        j == plain_end(s@, i as int),
        i <= j <= s.len(),
{
    let mut j: usize = i;
    while j < s.len() && !ends_line(s[j])
        invariant
            i <= j <= s.len(),
            plain_end(s@, i as int) == plain_end(s@, j as int),
        decreases s.len() - j,
    {
        j += 1;
    }
    j
}

/// Where the next `]` from `i` on stands.
fn find_bracket_end(s: &[char], i: usize) -> (j: usize)
    requires
        i <= s.len(),
    ensures
        j == bracket_end(s@, i as int),
        i <= j <= s.len(),
{
    let mut j: usize = i;
    while j < s.len() && s[j] != ']'
        invariant
            i <= j <= s.len(),
            bracket_end(s@, i as int) == bracket_end(s@, j as int),
        decreases s.len() - j,
    {
        j += 1;
    }
    j
}

/// The record that starts at `i`: where its body starts and ends, and
/// where the record ends.
fn read_record(s: &[char], i: usize) -> (r: Option<(usize, usize, usize)>)
    requires
        i <= s.len(),
    ensures
        match r {
            Some((lo, hi, end)) => lo <= hi <= end <= s.len() && i < end && record_at(s@, i as int)
                == Some(Record { body: s@.subrange(lo as int, hi as int), end: end as int }),
            None => record_at(s@, i as int) is None,
        },
{
    proof {
        lemma_record_bounds(s@, i as int);
    }
    if i < s.len() && s[i] == '[' {
        let close = find_bracket_end(s, i + 1);
        if close < s.len() {
            return Some((i + 1, close, close + 1));
        }
    }
    let end = find_plain_end(s, i);
    if end > i {
        Some((i, end, end))
    } else {
        None
    }
}

/// Measures the separator that starts at `i`.
fn separator_at(s: &[char], i: usize) -> (d: usize)
    requires
        i <= s.len(),
    ensures
        d == separator_len(s@, i as int),
        i + d <= s.len(),
{
    let a = line_break_at(s, i);
    if a == 0 {
        return 0;
    }
    let b = line_break_at(s, i + a);
    if b == 0 {
        0
    } else {
        a + b
    }
}

/// Makes the quote that a record holds.
pub fn line_to_quote(line: &[char]) -> (q: Quote)
    ensures
        q@ == quote_of(line@),
{
    match rfind(line, ':') {
        Some(k2) => {
            match rfind(slice_subrange(line, 0, k2), ':') {
                Some(k1) => {
                    assert(line@.subrange(0, k1 as int) =~= line@.take(k1 as int));
                    Quote::from_chars(
                        Some(slice_subrange(line, k1 + 1, k2)),
                        slice_subrange(line, 0, k1),
                    )
                },
                None => Quote::from_chars(None, line),
            }
        },
        None => Quote::from_chars(None, line),
    }
}

/// Reads `s` in this layout.
pub fn parse_chars(s: &[char]) -> (r: Result<Vec<Quote>, SyntaxError>)
    ensures
        match r {
            Ok(quotes) => recognized(s@) == Ok::<Seq<QuoteView>, int>(views(quotes@)),
            Err(e) => recognized(s@) == Err::<Seq<QuoteView>, int>(e.offset as int),
        },
{
    let mut quotes: Vec<Quote> = Vec::new();
    let ghost mut done: Seq<Seq<char>> = Seq::empty();
    let mut i: usize = 0;
    let mut stop: usize = 0;
    loop
        invariant_except_break
            i <= s.len(),
            scan(s@, 0).records == done + scan(s@, i as int).records,
            scan(s@, 0).stop == scan(s@, i as int).stop,
            views(quotes@) == done.map_values(|r: Seq<char>| quote_of(r)),
        ensures
            stop == scan(s@, 0).stop,
            stop <= s.len(),
            views(quotes@) == scan(s@, 0).records.map_values(|r: Seq<char>| quote_of(r)),
        decreases s.len() - i,
    {
        proof {
            lemma_record_bounds(s@, i as int);
        }
        match read_record(s, i) {
            None => {
                stop = i;
                assert(done + scan(s@, i as int).records =~= done);
                break;
            },
            Some((lo, hi, end)) => {
                let quote = line_to_quote(slice_subrange(s, lo, hi));
                let ghost body = s@.subrange(lo as int, hi as int);
                proof {
                    assert(views(quotes@.push(quote)) =~= views(quotes@).push(quote@));
                    assert(done.push(body).map_values(|r: Seq<char>| quote_of(r)) =~= done.map_values(
                        |r: Seq<char>| quote_of(r),
                    ).push(quote_of(body)));
                }
                quotes.push(quote);
                let d = separator_at(s, end);
                proof {
                    lemma_record_bounds(s@, end + d);
                }
                if d == 0 {
                    stop = end;
                    assert(done + scan(s@, i as int).records =~= done.push(body));
                    break;
                } else if end + d >= s.len() || ends_line(s[end + d]) {
                    stop = end + d;
                    assert(done + scan(s@, i as int).records =~= done.push(body));
                    break;
                } else {
                    proof {
                        assert(done + scan(s@, i as int).records =~= done.push(body) + scan(
                            s@,
                            end + d,
                        ).records);
                        done = done.push(body);
                    }
                    i = end + d;
                }
            },
        }
    }
    if stop == s.len() {
        Ok(quotes)
    } else {
        Err(SyntaxError { offset: stop })
    }
}

/// The recogniser of this layout.
pub struct MailQuotes {}

/// The recogniser of this layout.
pub fn parser() -> MailQuotes {
    MailQuotes {  }
}

impl MailQuotes {
    /// Reads `s` in this layout: the quotes of its records, in order, or
    /// where reading stopped.
    pub fn parse(&self, s: &str) -> (r: Result<Vec<Quote>, SyntaxError>)
        ensures
            match r {
                Ok(quotes) => recognized(s@) == Ok::<Seq<QuoteView>, int>(views(quotes@)),
                Err(e) => recognized(s@) == Err::<Seq<QuoteView>, int>(e.offset as int),
            },
    {
        let chars = chars_of(s);
        parse_chars(chars.as_slice())
    }
}

} // verus!
